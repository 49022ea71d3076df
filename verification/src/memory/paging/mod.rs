use vstd::prelude::*;
use crate::memory::paging::need::grown_by;
use crate::memory::paging::need::lemma_batch;
use crate::memory::paging::need::lemma_grown_step;
use crate::memory::paging::need::lemma_single;
use crate::memory::paging::need::lemma_mapped_there;
use crate::memory::paging::need::lemma_missing;
use crate::memory::paging::need::lemma_shared_with;
use crate::memory::paging::need::shared_before;
use crate::memory::paging::mapper::lemma_beside_beside;
use crate::memory::paging::mapper::lemma_page_beside;
use crate::memory::paging::mapper::page_beside;
use crate::memory::paging::run::lemma_beside;
use crate::memory::paging::need::lemma_needed_under_new_root;
use crate::memory::paging::need::lemma_needed_rises;
use crate::memory::paging::need::tables_needed;
use crate::memory::boot::BootInformation;
use crate::memory::boot::flags_in_sections;
use crate::memory::boot::in_section_at;
use crate::memory::boot::lemma_flags_in_sections;
use crate::memory::boot::lemma_pages_of_sections;
use crate::memory::boot::pages_of_sections;
use crate::memory::boot::VGA_BUFFER_FRAME;
use crate::memory::Frame;
use crate::memory::FrameAllocator;
use crate::memory::FrameIter;
use crate::memory::paging::entry::EntryFlags;
use crate::memory::paging::entry::FRAME_LIMIT;
use crate::memory::paging::entry::PRESENT;
use crate::memory::paging::entry::WRITABLE;
use crate::memory::paging::entry::word_set;
use crate::memory::paging::mapper::RECURSIVE_INDEX;
use crate::memory::paging::table::zero_table;
use crate::memory::paging::mapper::Mapper;
use crate::memory::paging::mapper::MapperFlush;
use crate::memory::paging::temporary_page::TemporaryPage;
use crate::memory::paging::tree::Leaf;
use crate::memory::paging::tree::p1_of;
use crate::memory::paging::tree::p2_of;
use crate::memory::paging::tree::p3_of;
use crate::memory::paging::tree::same_table;
use crate::memory::paging::tree::table_there;
use crate::memory::paging::tree::user_page;
use crate::memory::PhysicalAddress;

pub mod entry;
pub mod mapper;
pub mod need;
pub mod physical;
pub mod run;
pub mod table;
pub mod temporary_page;
pub mod tree;

verus! {

/// An address as the processor translates it.
pub type VirtualAddress = u64;

/// The first address that is not canonical.
pub const LOWER_HALF_END: u64 = 0x0000_8000_0000_0000;

/// The first canonical address of the upper half.
pub const UPPER_HALF_START: u64 = 0xffff_8000_0000_0000;

/// A canonical address has bits 47 to 63 all equal.
pub open spec fn is_canonical(address: u64) -> bool {
    address < LOWER_HALF_END || address >= UPPER_HALF_START
}

/// The number of a page is the number of one that holds a canonical address.
pub open spec fn is_page_number(number: u64) -> bool {
    number < 0x8_0000_0000 || 0xf_fff8_0000_0000 <= number <= 0xf_ffff_ffff_ffff
}

/// Both numbers lie in the lower half of the address space, or both in the upper half.
pub open spec fn same_half(a: u64, b: u64) -> bool {
    (a < 0x8_0000_0000) == (b < 0x8_0000_0000)
}

/// The index into the table of level `level` (4 to 1) for the page with number `number`.
pub open spec fn table_index(number: u64, level: int) -> u64 {
    if level == 4 {
        (number >> 27) & 0o777
    } else if level == 3 {
        (number >> 18) & 0o777
    } else if level == 2 {
        (number >> 9) & 0o777
    } else {
        number & 0o777
    }
}

/// Each index is below 512, and the four indices name the page: two pages with the same
/// four indices are the same page.
pub proof fn lemma_table_indices(a: u64, b: u64)
    by (bit_vector)
    requires
        is_page_number(a),
        is_page_number(b),
    ensures
        (a >> 27) & 0o777 < 512,
        (a >> 18) & 0o777 < 512,
        (a >> 9) & 0o777 < 512,
        a & 0o777 < 512,
        ((a >> 27) & 0o777 == (b >> 27) & 0o777 && (a >> 18) & 0o777 == (b >> 18) & 0o777 && (a
            >> 9) & 0o777 == (b >> 9) & 0o777 && a & 0o777 == b & 0o777) ==> a == b,
{
}

/// A virtual page of `PAGE_SIZE` bytes, named by its number.
#[derive(Debug, Clone, Copy, PartialEq, Eq, Structural, PartialOrd, Ord)]
pub struct Page {
    number: u64,
}

impl View for Page {
    type V = u64;

    /// The page number.
    closed spec fn view(&self) -> u64 {
        self.number
    }
}

impl Page {
    #[verifier::type_invariant]
    spec fn canonical(self) -> bool {
        is_page_number(self.number)
    }

    /// Two pages with the same number are the same page.
    pub proof fn lemma_view_injective(a: Page, b: Page)
        requires
            a@ == b@,
        ensures
            a == b,
    {
    }

    pub fn number(&self) -> (n: u64)
        ensures
            n == self@,
            is_page_number(n),
    {
        proof {
            use_type_invariant(self);
        }
        self.number
    }

    /// The page with the number `number`.
    pub fn from_number(number: u64) -> (page: Page)
        requires
            is_page_number(number),
        ensures
            page@ == number,
    {
        Page { number }
    }

    /// The pages from `start` to `end`, both included, in rising order.
    pub fn range_inclusive(start: Page, end: Page) -> (iter: PageIter)
        ensures
            iter@ == PageIter::spec_range(start@, end@),
            same_half(start@, end@) ==> iter.all_pages(),
    {
        proof {
            use_type_invariant(&start);
            use_type_invariant(&end);
        }
        let iter = PageIter { start: start.number, end: end.number };
        proof {
            if same_half(start@, end@) {
                assert forall|i: int| 0 <= i < iter@.len() implies is_page_number(
                    #[trigger] iter@[i],
                ) by {
                    assert(iter@[i] == start@ + i);
                }
            }
        }
        iter
    }

    /// Whether `address` is canonical, so that a page holds it.
    pub fn is_valid_address(address: VirtualAddress) -> (yes: bool)
        ensures
            yes == is_canonical(address),
    {
        address < LOWER_HALF_END || address >= UPPER_HALF_START
    }

    /// The page that holds the byte at `address`, which is canonical.
    pub fn containing_address(address: VirtualAddress) -> (page: Page)
        requires
            is_canonical(address),
        ensures
            page@ == address / 4096,
    {
        proof {
            assert(is_page_number(address / 4096)) by (bit_vector)
                requires
                    is_canonical(address),
            ;
        }
        Page { number: address / 4096 }
    }

    /// The address of the page's first byte.
    pub fn start_address(&self) -> (address: VirtualAddress)
        ensures
            address == self@ * 4096,
            is_canonical(address),
    {
        proof {
            use_type_invariant(self);
            let n = self.number;
            assert(n * 4096 <= u64::MAX && is_canonical((n * 4096) as u64)) by (bit_vector)
                requires
                    is_page_number(n),
            ;
        }
        self.number * 4096
    }

    /// The index of the page's entry in the root table.
    pub fn p4_index(&self) -> (index: usize)
        ensures
            index == table_index(self@, 4),
            index < 512,
    {
        proof {
            use_type_invariant(self);
            lemma_table_indices(self.number, self.number);
        }
        ((self.number >> 27) & 0o777) as usize
    }

    /// The index of the page's entry in the table of level 3.
    pub fn p3_index(&self) -> (index: usize)
        ensures
            index == table_index(self@, 3),
            index < 512,
    {
        proof {
            use_type_invariant(self);
            lemma_table_indices(self.number, self.number);
        }
        ((self.number >> 18) & 0o777) as usize
    }

    /// The index of the page's entry in the table of level 2.
    pub fn p2_index(&self) -> (index: usize)
        ensures
            index == table_index(self@, 2),
            index < 512,
    {
        proof {
            use_type_invariant(self);
            lemma_table_indices(self.number, self.number);
        }
        ((self.number >> 9) & 0o777) as usize
    }

    /// The index of the page's entry in the table of level 1.
    pub fn p1_index(&self) -> (index: usize)
        ensures
            index == table_index(self@, 1),
            index < 512,
    {
        proof {
            use_type_invariant(self);
            lemma_table_indices(self.number, self.number);
        }
        (self.number & 0o777) as usize
    }
}

/// The pages that are still to come out of a range.
#[derive(Clone, Copy)]
pub struct PageIter {
    start: u64,
    end: u64,
}

impl View for PageIter {
    type V = Seq<u64>;

    /// The numbers of the pages still to come, in the order in which they come.
    closed spec fn view(&self) -> Seq<u64> {
        Self::spec_range(self.start, self.end)
    }
}

impl PageIter {
    /// The numbers from `start` to `end`, both included; empty where `start > end`.
    pub open spec fn spec_range(start: u64, end: u64) -> Seq<u64> {
        if start <= end {
            Seq::new((end - start + 1) as nat, |i: int| (start + i) as u64)
        } else {
            Seq::empty()
        }
    }

    /// Every number still to come is the number of a page.
    pub open spec fn all_pages(&self) -> bool {
        forall|i: int| 0 <= i < self@.len() ==> is_page_number(#[trigger] self@[i])
    }

    /// What is left is a run of numbers that rise by one.
    pub proof fn lemma_run(&self)
        ensures
            forall|i: int| 0 <= i < self@.len() ==> #[trigger] self@[i] == self@[0] + i,
    {
    }

    /// Hands out the first page that is left, if any.
    pub fn next(&mut self) -> (page: Option<Page>)
        requires
            old(self).all_pages(),
        ensures
            final(self).all_pages(),
            match page {
                Some(p) => old(self)@.len() > 0 && p@ == old(self)@[0] && final(self)@ == old(
                    self,
                )@.drop_first(),
                None => old(self)@.len() == 0 && final(self)@ == old(self)@,
            },
    {
        if self.start <= self.end {
            assert(self@[0] == self.start);
            let page = Page { number: self.start };
            if self.start == self.end {
                // the range is used up: leave an empty one behind
                self.start = 1;
                self.end = 0;
                assert(self@ =~= old(self)@.drop_first());
            } else {
                self.start = self.start + 1;
                assert(self@ =~= old(self)@.drop_first());
                assert forall|i: int| 0 <= i < self@.len() implies is_page_number(
                    #[trigger] self@[i],
                ) by {
                    assert(self@[i] == old(self)@[i + 1]);
                }
            }
            Some(page)
        } else {
            None
        }
    }

    /// Skips `n` pages and hands out the one after them, if there is one; where there is
    /// none, nothing is left.
    pub fn nth(&mut self, n: usize) -> (page: Option<Page>)
        requires
            old(self).all_pages(),
        ensures
            final(self).all_pages(),
            match page {
                Some(p) => n < old(self)@.len() && p@ == old(self)@[n as int] && final(self)@
                    == old(self)@.skip(n + 1),
                None => n >= old(self)@.len() && final(self)@.len() == 0,
            },
    {
        if self.start <= self.end && (n as u64) <= self.end - self.start {
            assert(self@[n as int] == self.start + n);
            let number = self.start + n as u64;
            if number == self.end {
                self.start = 1;
                self.end = 0;
                assert(self@ =~= old(self)@.skip(n + 1));
            } else {
                self.start = number + 1;
                assert(self@ =~= old(self)@.skip(n + 1));
                assert forall|i: int| 0 <= i < self@.len() implies is_page_number(
                    #[trigger] self@[i],
                ) by {
                    assert(self@[i] == old(self)@[i + n + 1]);
                }
            }
            Some(Page { number })
        } else {
            self.start = 1;
            self.end = 0;
            None
        }
    }
}

/// What the processor is to do so that it sees the tables as they stand in memory.
#[derive(Clone, Copy, Debug, PartialEq, Eq, Structural)]
pub enum TlbCommand {
    /// Forget the translation of the page at this address.
    FlushPage(VirtualAddress),
    /// Forget every translation.
    FlushAll,
    /// Walk from the root table at this address from now on.
    LoadRoot(PhysicalAddress),
}

/// The tables that the processor walks, and the commands for the processor that are still
/// to be carried out.
pub struct ActivePageTable {
    pub mapper: Mapper,
    pub commands: Vec<TlbCommand>,
}

impl ActivePageTable {
    /// The active table on a memory that holds one table: a root table in `p4_frame`, empty
    /// but for the recursive entry.
    pub fn new(p4_frame: Frame) -> (table: ActivePageTable)
        requires
            p4_frame@ < FRAME_LIMIT,
        ensures
            table.mapper.wf(),
            table.mapper.spec_clean(),
            table.mapper.active_p4() == p4_frame@,
            table.mapper.root() == Some(p4_frame@),
            table.mapper.spec_is_root(p4_frame@),
            table.mapper.table_frames() == Set::<u64>::empty().insert(p4_frame@),
            forall|page: u64| user_page(page) ==> #[trigger] table.mapper.spec_leaf(page) is None,
            table.commands@ == Seq::<TlbCommand>::empty(),
    {
        let mapper = Mapper::new(p4_frame);
        ActivePageTable { mapper, commands: Vec::new() }
    }

    /// Hands out the commands that are still to be carried out, the oldest first, and
    /// keeps none.
    pub fn take_commands(&mut self) -> (commands: Vec<TlbCommand>)
        ensures
            commands@ == old(self).commands@,
            final(self).commands@ == Seq::<TlbCommand>::empty(),
            final(self).mapper == old(self).mapper,
    {
        let mut commands: Vec<TlbCommand> = Vec::new();
        core::mem::swap(&mut self.commands, &mut commands);
        commands
    }

    /// The physical address that the virtual address `virtual_address` is mapped to, if it
    /// is mapped.
    pub fn translate(&self, virtual_address: VirtualAddress) -> (address: Option<PhysicalAddress>)
        requires
            is_canonical(virtual_address),
            self.mapper.aligned_at(virtual_address / 4096),
        ensures
            address == self.mapper.spec_translate(virtual_address),
    {
        self.mapper.translate(virtual_address)
    }

    /// The frame that `page` is mapped to, if it is mapped.
    pub fn translate_page(&self, page: Page) -> (frame: Option<Frame>)
        requires
            self.mapper.aligned_at(page@),
        ensures
            frame is Some <==> self.mapper.spec_translate_page(page@) is Some,
            frame is Some ==> Some(frame->0@) == self.mapper.spec_translate_page(page@),
    {
        self.mapper.translate_page(page)
    }

    /// Maps `page` to `frame` with `flags`, and makes the tables on the way that are not
    /// there yet.
    pub fn map_to<A: FrameAllocator>(
        &mut self,
        page: Page,
        frame: Frame,
        flags: EntryFlags,
        allocator: &mut A,
    ) -> (flush: MapperFlush)
        requires
            old(self).mapper.wf(),
            old(self).mapper.wf_with(old(allocator)),
            old(self).mapper.spec_mappable(page@),
            frame@ < FRAME_LIMIT,
            old(allocator).available() >= old(self).mapper.spec_missing_tables(page@),
        ensures
            Mapper::mapped_to(
                &old(self).mapper,
                &final(self).mapper,
                old(allocator),
                final(allocator),
                page@,
                frame@,
                flags@,
            ),
            flush@ == page@,
            final(self).commands@ == old(self).commands@,
    {
        self.mapper.map_to(page, frame, flags, allocator)
    }

    /// Maps `page` to a frame that `allocator` hands out.
    pub fn map<A: FrameAllocator>(&mut self, page: Page, flags: EntryFlags, allocator: &mut A) -> (flush:
        MapperFlush)
        requires
            old(self).mapper.wf(),
            old(self).mapper.wf_with(old(allocator)),
            old(self).mapper.spec_mappable(page@),
            old(allocator).available() >= old(self).mapper.spec_missing_tables(page@) + 1,
        ensures
            Mapper::mapped(
                &old(self).mapper,
                &final(self).mapper,
                old(allocator),
                final(allocator),
                page@,
                flags@,
            ),
            flush@ == page@,
            final(self).commands@ == old(self).commands@,
    {
        self.mapper.map(page, flags, allocator)
    }

    /// Maps the page with the number of `frame` to `frame`.
    pub fn identity_map<A: FrameAllocator>(
        &mut self,
        frame: Frame,
        flags: EntryFlags,
        allocator: &mut A,
    ) -> (flush: MapperFlush)
        requires
            old(self).mapper.wf(),
            old(self).mapper.wf_with(old(allocator)),
            frame@ < 0x8_0000_0000,
            old(self).mapper.spec_mappable(frame@),
            old(allocator).available() >= old(self).mapper.spec_missing_tables(frame@),
        ensures
            Mapper::mapped_to(
                &old(self).mapper,
                &final(self).mapper,
                old(allocator),
                final(allocator),
                frame@,
                frame@,
                flags@,
            ),
            flush@ == frame@,
            final(self).commands@ == old(self).commands@,
    {
        self.mapper.identity_map(frame, flags, allocator)
    }

    /// Takes the mapping of `page` away and gives the frame that it was mapped to, and the
    /// frame of each table that is left without entries, back to `allocator`.
    pub fn unmap<A: FrameAllocator>(&mut self, page: Page, allocator: &mut A) -> (flush: MapperFlush)
        requires
            old(self).mapper.wf(),
            old(self).mapper.wf_with(old(allocator)),
            old(self).mapper.spec_mapped_small(page@),
            old(self).mapper.spec_leaf(page@)->0.frame < old(allocator).frame_limit(),
            !old(self).mapper.table_frames().contains(old(self).mapper.spec_leaf(page@)->0.frame),
        ensures
            Mapper::freed(
                &old(self).mapper,
                &final(self).mapper,
                old(allocator),
                final(allocator),
                page@,
            ),
            flush@ == page@,
            final(self).commands@ == old(self).commands@,
    {
        self.mapper.unmap(page, allocator)
    }

    /// Has the processor forget the translation of `page`.
    pub fn flush(&mut self, page: Page)
        ensures
            final(self).mapper == old(self).mapper,
            final(self).commands@ == old(self).commands@.push(
                TlbCommand::FlushPage((page@ * 4096) as u64),
            ),
    {
        self.commands.push(TlbCommand::FlushPage(page.start_address()));
    }

    /// Has the processor forget every translation.
    pub fn flush_all(&mut self)
        ensures
            final(self).mapper == old(self).mapper,
            final(self).commands@ == old(self).commands@.push(TlbCommand::FlushAll),
    {
        self.commands.push(TlbCommand::FlushAll);
    }

    /// Makes `new_table` the active table and hands back the table that was active. The
    /// processor is to walk from the new root table from now on.
    pub fn switch(&mut self, new_table: InactivePageTable) -> (old_table: InactivePageTable)
        requires
            old(self).mapper.wf(),
            old(self).mapper.spec_is_root(new_table@),
            old(self).mapper.spec_is_root(old(self).mapper.active_p4()),
        ensures
            final(self).mapper.wf(),
            final(self).mapper.active_p4() == new_table@,
            final(self).mapper.root() == Some(new_table@),
            old_table@ == old(self).mapper.active_p4(),
            final(self).mapper.tables() == old(self).mapper.tables(),
            final(self).mapper.spec_clean() == old(self).mapper.spec_clean(),
            forall|f: u64| final(self).mapper.spec_is_p4(f) == old(self).mapper.spec_is_p4(f),
            forall|r: u64, q: u64|
                final(self).mapper.spec_leaf_from(r, q) == old(self).mapper.spec_leaf_from(r, q),
            final(self).commands@ == old(self).commands@.push(
                TlbCommand::LoadRoot((new_table@ * 4096) as u64),
            ),
    {
        let address = new_table.p4_frame.start_address();
        let previous = self.mapper.switch_to(new_table.p4_frame);
        self.commands.push(TlbCommand::LoadRoot(address));
        InactivePageTable { p4_frame: previous }
    }

    /// What `with` hands to its closure: the mapper `inside`, whose recursive entry leads to
    /// the root table in `table`, so that it works on the tables under that one, which
    /// are as they were: the root table word for word, and the same tables on the way to
    /// each page. The temporary page `temporary_page` is mapped in the active table, and
    /// the frames for the tables on the way to it have left the allocator.
    pub open spec fn entered<A: FrameAllocator>(
        before: &Mapper,
        allocator_before: &A,
        table: u64,
        temporary_page: u64,
        inside: &Mapper,
        allocator_inside: &A,
    ) -> bool {
        &&& inside.wf()
        &&& inside.wf_with(allocator_inside)
        &&& inside.active_p4() == before.active_p4()
        &&& inside.root() == Some(table)
        &&& inside.spec_is_root(table)
        &&& inside.spec_is_p4(before.active_p4())
        &&& inside.tables()[table] == before.tables()[table]
        &&& Mapper::ways_kept(before, inside, table)
        &&& before.spec_clean() ==> inside.spec_clean()
        &&& allocator_inside.frame_limit() == allocator_before.frame_limit()
        &&& allocator_inside.available() == allocator_before.available()
            - before.spec_missing_tables(temporary_page)
        &&& allocator_inside.free_frames() == allocator_before.free_frames().difference(
            inside.table_frames(),
        )
        &&& before.table_frames().subset_of(inside.table_frames())
        &&& Mapper::frames_conserved(before, inside, allocator_before, allocator_inside)
        &&& forall|q: u64|
            user_page(q) ==> #[trigger] inside.spec_leaf(q) == before.spec_leaf_from(table, q)
        &&& forall|q: u64|
            user_page(q) && q != temporary_page ==> #[trigger] inside.spec_leaf_from(
                before.active_p4(),
                q,
            ) == before.spec_leaf(q)
        &&& inside.spec_leaf_from(before.active_p4(), temporary_page) == Some(
            Leaf {
                level: 1,
                frame: before.active_p4(),
                flags: crate::memory::paging::entry::WRITABLE | PRESENT,
            },
        )
    }

    /// What `with` makes of what its closure hands back: the recursive entry of the active
    /// table leads to the table itself again, the temporary page is unmapped, and under
    /// `table` every page is mapped as the closure left it, with the same tables on its
    /// way; the allocator has the frames that the closure left it.
    pub open spec fn left<A: FrameAllocator>(
        inside: &Mapper,
        allocator_inside: &A,
        table: u64,
        after: &Mapper,
        allocator_after: &A,
    ) -> bool {
        &&& after.wf()
        &&& after.wf_with(allocator_after)
        &&& after.active_p4() == inside.active_p4()
        &&& after.root() == Some(inside.active_p4())
        &&& after.spec_is_root(table)
        &&& inside.spec_clean() ==> after.spec_clean()
        &&& after.table_frames() == inside.table_frames()
        &&& allocator_after.frame_limit() == allocator_inside.frame_limit()
        &&& allocator_after.free_frames() == allocator_inside.free_frames()
        &&& allocator_after.available() == allocator_inside.available()
        &&& Mapper::ways_kept(inside, after, table)
        &&& forall|q: u64|
            user_page(q) ==> #[trigger] after.spec_leaf_from(table, q) == inside.spec_leaf(q)
    }

    /// Runs `f` on a mapper that works on the tables under `table`, not on those of the
    /// active table: the recursive entry of the active table is made to lead to `table` for
    /// as long as `f` runs. The temporary page keeps the active root table in reach
    /// meanwhile.
    pub fn with<A: FrameAllocator, F: FnOnce(Mapper, A) -> (Mapper, A)>(
        self,
        table: &InactivePageTable,
        temporary_page: &mut TemporaryPage,
        allocator: A,
        f: F,
    ) -> (result: (ActivePageTable, A))
        requires
            self.mapper.wf(),
            self.mapper.wf_with(&allocator),
            self.mapper.spec_is_root(self.mapper.active_p4()),
            self.mapper.spec_is_root(table@),
            table@ != self.mapper.active_p4(),
            self.mapper.spec_translate_page(old(temporary_page)@) is None,
            self.mapper.spec_mappable(old(temporary_page)@),
            allocator.available() >= self.mapper.spec_missing_tables(old(temporary_page)@),
            forall|inside: Mapper, allocator_inside: A|
                Self::entered(
                    &self.mapper,
                    &allocator,
                    table@,
                    old(temporary_page)@,
                    &inside,
                    &allocator_inside,
                ) ==> f.requires((inside, allocator_inside)),
            forall|inside: Mapper, allocator_inside: A, done: Mapper, allocator_done: A|
                Self::entered(
                    &self.mapper,
                    &allocator,
                    table@,
                    old(temporary_page)@,
                    &inside,
                    &allocator_inside,
                ) && f.ensures((inside, allocator_inside), (done, allocator_done)) ==> Mapper::kept(
                    &inside,
                    &done,
                    &allocator_inside,
                    &allocator_done,
                ),
        ensures
            final(temporary_page)@ == old(temporary_page)@,
            result.0.mapper.spec_is_root(self.mapper.active_p4()),
            forall|q: u64|
                user_page(q) ==> #[trigger] result.0.mapper.spec_leaf(q) == self.mapper.spec_leaf(
                    q,
                ),
            exists|inside: Mapper, allocator_inside: A, done: Mapper, allocator_done: A|
                Self::entered(
                    &self.mapper,
                    &allocator,
                    table@,
                    old(temporary_page)@,
                    &inside,
                    &allocator_inside,
                ) && f.ensures((inside, allocator_inside), (done, allocator_done)) && Self::left(
                    &done,
                    &allocator_done,
                    table@,
                    &result.0.mapper,
                    &result.1,
                ),
            result.0.commands@ == self.commands@.push(
                TlbCommand::FlushPage((old(temporary_page)@ * 4096) as u64),
            ).push(TlbCommand::FlushAll).push(TlbCommand::FlushAll).push(
                TlbCommand::FlushPage((old(temporary_page)@ * 4096) as u64),
            ),
    {
        let mut active = self;
        let mut allocator = allocator;
        let ghost before = active.mapper;
        let ghost allocator_before = allocator;
        let ghost page = temporary_page@;
        let backup = active.mapper.active_frame();
        // map the temporary page to the active root table
        let p4_table = temporary_page.map_table_frame(backup.clone(), &mut active, &mut allocator);
        let ghost mapped = active.mapper;
        // overwrite the recursive entry
        active.mapper.set_recursive_entry(&backup, table.p4_frame.clone());
        active.flush_all();
        let ghost inside = active.mapper;
        let ghost allocator_inside = allocator;
        proof {
            assert forall|q: u64| user_page(q) implies #[trigger] inside.spec_leaf(q)
                == before.spec_leaf_from(table@, q) by {
                assert(mapped.spec_leaf_from(table@, q) == before.spec_leaf_from(table@, q));
                assert(inside.spec_leaf_from(table@, q) == mapped.spec_leaf_from(table@, q));
            }
            assert forall|q: u64| user_page(q) && q != page implies #[trigger] inside.spec_leaf_from(
                before.active_p4(),
                q,
            ) == before.spec_leaf(q) by {
                assert(mapped.spec_leaf(q) == before.spec_leaf(q));
                assert(inside.spec_leaf_from(before.active_p4(), q) == mapped.spec_leaf_from(
                    before.active_p4(),
                    q,
                ));
            }
            assert(inside.spec_leaf_from(before.active_p4(), page) == mapped.spec_leaf_from(
                before.active_p4(),
                page,
            ));
            assert(allocator_inside.free_frames().union(inside.table_frames())
                =~= allocator_before.free_frames().union(before.table_frames()));
            assert(inside.tables()[table@] == before.tables()[table@]) by {
                Mapper::lemma_root_is_p4(&mapped);
                mapped.lemma_levels_on_the_way(page);
                mapped.lemma_entry_counts(table@);
                assert(mapped.spec_is_p4(table@));
                assert(mapped.tables()[table@] == before.tables()[table@]);
            }
            assert(Mapper::ways_kept(&before, &inside, table@)) by {
                Mapper::lemma_root_is_p4(&before);
                Mapper::lemma_root_is_p4(&mapped);
                let missing = before.spec_missing_tables(page);
                let made = mapped.table_frames().difference(before.table_frames());
                assert(Mapper::tables_made(&before, &mapped, &allocator_before, page));
                assert(Mapper::upper_kept(&before, &mapped, page, missing));
                assert forall|f: u64|
                    before.tables().contains_key(f) && f != before.active_p4() && Some(f) != p3_of(
                        before.tables(),
                        before.active_p4(),
                        page,
                    ) && Some(f) != p2_of(before.tables(), before.active_p4(), page) && Some(f)
                        != p1_of(
                        before.tables(),
                        before.active_p4(),
                        page,
                    ) implies mapped.tables().contains_key(f) && #[trigger] mapped.tables()[f]
                    == before.tables()[f] by {
                    assert(before.table_frames().contains(f));
                    assert(mapped.table_frames().contains(f));
                    assert(!made.contains(f));
                }
                Mapper::lemma_ways_kept(&before, &mapped, table@, before.active_p4(), page);
                assert(mapped.spec_is_p4(table@));
                Mapper::lemma_ways_kept(&mapped, &inside, table@, before.active_p4(), page);
                assert forall|q: u64, level: int|
                    user_page(q) && 1 <= level <= 3 implies #[trigger] table_there(
                    inside.tables(),
                    table@,
                    q,
                    level,
                ) == table_there(before.tables(), table@, q, level) by {
                    assert(table_there(mapped.tables(), table@, q, level) == table_there(
                        before.tables(),
                        table@,
                        q,
                        level,
                    ));
                }
            }
            assert(Self::entered(
                &before,
                &allocator_before,
                table@,
                page,
                &inside,
                &allocator_inside,
            ));
        }
        // run the closure on the tables under `table`
        let ActivePageTable { mapper, commands } = active;
        let (mapper, allocator_done) = f(mapper, allocator);
        let mut allocator = allocator_done;
        let mut active = ActivePageTable { mapper, commands };
        let ghost done = active.mapper;
        let ghost allocator_done = allocator;
        proof {
            assert(f.ensures((inside, allocator_inside), (done, allocator_done)));
            assert(Mapper::kept(&inside, &done, &allocator_inside, &allocator_done));
            Mapper::lemma_root_is_p4(&done);
        }
        // restore the recursive entry through the temporary page
        active.mapper.set_recursive_entry(&p4_table, backup);
        active.flush_all();
        let ghost restored = active.mapper;
        proof {
            assert(restored.spec_leaf_from(before.active_p4(), page) == done.spec_leaf_from(
                before.active_p4(),
                page,
            ));
            assert(done.spec_leaf_from(before.active_p4(), page) == inside.spec_leaf_from(
                before.active_p4(),
                page,
            ));
        }
        temporary_page.unmap(&mut active, &mut allocator);
        proof {
            assert forall|q: u64| user_page(q) implies #[trigger] active.mapper.spec_leaf_from(
                table@,
                q,
            ) == done.spec_leaf(q) by {
                assert(restored.spec_leaf_from(table@, q) == done.spec_leaf_from(table@, q));
                assert(active.mapper.spec_leaf_from(table@, q) == restored.spec_leaf_from(
                    table@,
                    q,
                ));
            }
            assert forall|q: u64| user_page(q) implies #[trigger] active.mapper.spec_leaf(q)
                == before.spec_leaf(q) by {
                if q != page {
                    assert(inside.spec_leaf_from(before.active_p4(), q) == before.spec_leaf(q));
                    assert(done.spec_leaf_from(before.active_p4(), q) == inside.spec_leaf_from(
                        before.active_p4(),
                        q,
                    ));
                    assert(restored.spec_leaf_from(before.active_p4(), q) == done.spec_leaf_from(
                        before.active_p4(),
                        q,
                    ));
                    assert(active.mapper.spec_leaf(q) == restored.spec_leaf(q));
                }
            }
            assert(active.mapper.table_frames() =~= done.table_frames());
            assert(allocator.free_frames() =~= allocator_done.free_frames());
            assert(Mapper::ways_kept(&done, &active.mapper, table@)) by {
                Mapper::lemma_ways_kept(&done, &restored, table@, before.active_p4(), page);
                Mapper::lemma_root_is_p4(&restored);
                assert(restored.spec_is_p4(table@));
                Mapper::lemma_ways_kept(
                    &restored,
                    &active.mapper,
                    table@,
                    before.active_p4(),
                    page,
                );
                assert forall|q: u64, level: int|
                    user_page(q) && 1 <= level <= 3 implies #[trigger] table_there(
                    active.mapper.tables(),
                    table@,
                    q,
                    level,
                ) == table_there(done.tables(), table@, q, level) by {
                    assert(table_there(restored.tables(), table@, q, level) == table_there(
                        done.tables(),
                        table@,
                        q,
                        level,
                    ));
                }
            }
            assert(Self::left(&done, &allocator_done, table@, &active.mapper, &allocator));
        }
        (active, allocator)
    }
}

/// A root table that the processor does not walk, with the tables under it.
pub struct InactivePageTable {
    p4_frame: Frame,
}

impl View for InactivePageTable {
    type V = u64;

    /// The number of the frame that holds the root table.
    closed spec fn view(&self) -> u64 {
        self.p4_frame@
    }
}

impl InactivePageTable {
    /// A new root table in `frame`, empty but for its recursive entry. The frame is
    /// reached through the temporary page.
    pub fn new<A: FrameAllocator>(
        frame: Frame,
        active_table: &mut ActivePageTable,
        temporary_page: &mut TemporaryPage,
        allocator: &mut A,
    ) -> (table: InactivePageTable)
        requires
            old(active_table).mapper.wf(),
            old(active_table).mapper.wf_with(old(allocator)),
            old(active_table).mapper.spec_translate_page(old(temporary_page)@) is None,
            old(active_table).mapper.spec_mappable(old(temporary_page)@),
            old(allocator).available() >= old(active_table).mapper.spec_missing_tables(
                old(temporary_page)@,
            ),
            !old(active_table).mapper.table_frames().contains(frame@),
            !old(allocator).free_frames().contains(frame@),
            frame@ < old(allocator).frame_limit(),
        ensures
            table@ == frame@,
            final(temporary_page)@ == old(temporary_page)@,
            final(active_table).mapper.wf(),
            final(active_table).mapper.wf_with(final(allocator)),
            final(active_table).mapper.active_p4() == old(active_table).mapper.active_p4(),
            final(active_table).mapper.root() == old(active_table).mapper.root(),
            final(active_table).mapper.spec_is_root(table@),
            final(active_table).mapper.tables()[frame@] == zero_table().update(
                RECURSIVE_INDEX as int,
                word_set(0, frame@, PRESENT | WRITABLE),
            ),
            old(active_table).mapper.spec_clean() ==> final(active_table).mapper.spec_clean(),
            Mapper::roots_kept(&old(active_table).mapper, &final(active_table).mapper),
            forall|q: u64|
                user_page(q) ==> #[trigger] final(active_table).mapper.spec_leaf(q) == old(
                    active_table,
                ).mapper.spec_leaf(q),
            forall|q: u64|
                user_page(q) ==> #[trigger] final(active_table).mapper.spec_leaf_from(table@, q)
                    is None,
            final(active_table).mapper.spec_missing_tables(old(temporary_page)@) == 0,
            final(allocator).frame_limit() == old(allocator).frame_limit(),
            final(allocator).available() == old(allocator).available() - old(
                active_table,
            ).mapper.spec_missing_tables(old(temporary_page)@),
            final(allocator).free_frames() == old(allocator).free_frames().difference(
                final(active_table).mapper.table_frames(),
            ),
            old(active_table).mapper.table_frames().insert(frame@).subset_of(
                final(active_table).mapper.table_frames(),
            ),
            final(allocator).free_frames().union(final(active_table).mapper.table_frames()) == old(
                allocator,
            ).free_frames().union(old(active_table).mapper.table_frames()).insert(frame@),
            final(active_table).commands@ == old(active_table).commands@.push(
                TlbCommand::FlushPage((old(temporary_page)@ * 4096) as u64),
            ).push(TlbCommand::FlushPage((old(temporary_page)@ * 4096) as u64)),
    {
        let ghost before = active_table.mapper;
        let ghost page = temporary_page@;
        let table = temporary_page.map_table_frame(frame.clone(), active_table, allocator);
        let ghost mapped = active_table.mapper;
        // the table is zeroed and its recursive entry set
        active_table.mapper.install_root(&table);
        let ghost installed = active_table.mapper;
        proof {
            Mapper::lemma_root_is_p4(&before);
            Mapper::lemma_root_is_p4(&mapped);
            Mapper::lemma_root_is_p4(&installed);
            assert(installed.spec_leaf_from(installed.root()->0, page) == mapped.spec_leaf_from(
                installed.root()->0,
                page,
            ));
            assert(installed.wf_with(allocator));
        }
        temporary_page.unmap(active_table, allocator);
        proof {
            let after = active_table.mapper;
            let root = before.root()->0;
            installed.lemma_levels_on_the_way(page);
            installed.lemma_entry_counts(frame@);
            installed.lemma_entry_counts(root);
            assert(after.tables()[frame@] == installed.tables()[frame@]);
            Mapper::lemma_root_is_p4(&before);
            Mapper::lemma_root_is_p4(&mapped);
            Mapper::lemma_root_is_p4(&installed);
            assert forall|q: u64| user_page(q) implies #[trigger] after.spec_leaf(q)
                == before.spec_leaf(q) by {
                assert(installed.spec_leaf_from(root, q) == mapped.spec_leaf_from(root, q));
                if q != page {
                    assert(mapped.spec_leaf(q) == before.spec_leaf(q));
                    assert(after.spec_leaf(q) == installed.spec_leaf(q));
                }
            }
            assert forall|q: u64| user_page(q) implies #[trigger] after.spec_leaf_from(frame@, q)
                is None by {
                assert(installed.spec_leaf_from(frame@, q) is None);
                assert(after.spec_leaf_from(frame@, q) == installed.spec_leaf_from(frame@, q));
            }
            assert(after.table_frames() =~= installed.table_frames());
            assert(allocator.free_frames() =~= old(allocator).free_frames().difference(
                after.table_frames(),
            ));
            assert(allocator.free_frames().union(after.table_frames()) =~= old(
                allocator,
            ).free_frames().union(before.table_frames()).insert(frame@));
            assert forall|f: u64| before.spec_is_p4(f) implies #[trigger] after.spec_is_p4(f) by {
                assert(mapped.spec_is_p4(f));
                assert(installed.spec_is_p4(f));
            }
            assert forall|f: u64| before.spec_is_p4(f) implies #[trigger] crate::memory::paging::tree::next_of(
                after.tables(),
                Some(f),
                511,
            ) == crate::memory::paging::tree::next_of(before.tables(), Some(f), 511) by {
                assert(mapped.spec_is_p4(f));
                assert(installed.spec_is_p4(f));
            }
            assert forall|r: u64, q: u64|
                before.spec_is_p4(r) && Some(r) != before.root() && user_page(q)
                    implies #[trigger] after.spec_leaf_from(r, q) == before.spec_leaf_from(
                r,
                q,
            ) by {
                assert(mapped.spec_is_p4(r));
                assert(installed.spec_is_p4(r));
                assert(mapped.spec_leaf_from(r, q) == before.spec_leaf_from(r, q));
                assert(installed.spec_leaf_from(r, q) == mapped.spec_leaf_from(r, q));
            }
        }
        InactivePageTable { p4_frame: frame }
    }
}

/// A page of the lower half of the address space is one that can be mapped.
pub proof fn lemma_lower_half_page(page: u64)
    by (bit_vector)
    requires
        page < 0x8_0000_0000,
    ensures
        (page >> 27) & 0o777 != 511,
        page * 4096 < 0x8000_0000_0000,
{
}

/// Maps each of the frames from `first` to `last`, both included, to the page with its own
/// number, with `flags`. The promises to flush are given up: the tables are not those that
/// the processor walks.
pub fn identity_map_range<A: FrameAllocator>(
    mapper: &mut Mapper,
    allocator: &mut A,
    first: Frame,
    last: Frame,
    flags: EntryFlags,
)
    requires
        old(mapper).wf(),
        old(mapper).wf_with(old(allocator)),
        old(mapper).spec_clean(),
        last@ < 0x8_0000_0000,
        forall|q: u64| first@ <= q <= last@ ==> #[trigger] old(mapper).spec_leaf(q) is None,
        old(allocator).available() >= old(mapper).spec_tables_needed(
            FrameIter::spec_range(first@, last@),
        ),
    ensures
        Mapper::kept(old(mapper), final(mapper), old(allocator), final(allocator)),
        Mapper::frames_conserved(old(mapper), final(mapper), old(allocator), final(allocator)),
        final(mapper).spec_clean(),
        forall|q: u64|
            user_page(q) ==> #[trigger] final(mapper).spec_leaf(q) == if first@ <= q <= last@ {
                Some(Leaf { level: 1, frame: q, flags: flags@ | PRESENT })
            } else {
                old(mapper).spec_leaf(q)
            },
        final(allocator).available() == old(allocator).available() - old(
            mapper,
        ).spec_tables_needed(FrameIter::spec_range(first@, last@)),
        Mapper::spec_grown_by(old(mapper), final(mapper), FrameIter::spec_range(first@, last@)),
{
    let ghost low = first@;
    let ghost high = last@;
    let ghost pages = FrameIter::spec_range(first@, last@);
    let ghost root = mapper.root()->0;
    let mut frames: FrameIter = Frame::range_inclusive(first, last);
    proof {
        Mapper::lemma_kept_same(mapper, allocator);
    }
    loop
        invariant
            low == first@,
            high == last@,
            high < 0x8_0000_0000,
            low > high ==> frames@.len() == 0,
            frames@.len() <= high + 1 - low || low > high,
            forall|i: int| 0 <= i < frames@.len() ==> #[trigger] frames@[i] == high + 1
                - frames@.len() + i,
            Mapper::kept(old(mapper), mapper, old(allocator), allocator),
            Mapper::frames_conserved(old(mapper), mapper, old(allocator), allocator),
            mapper.wf(),
            mapper.wf_with(allocator),
            mapper.spec_clean(),
            forall|q: u64|
                user_page(q) ==> #[trigger] mapper.spec_leaf(q) == if low <= q < high + 1
                    - frames@.len() {
                    Some(Leaf { level: 1, frame: q, flags: flags@ | PRESENT })
                } else {
                    old(mapper).spec_leaf(q)
                },
            forall|q: u64| low <= q <= high ==> #[trigger] old(mapper).spec_leaf(q) is None,
            pages == FrameIter::spec_range(low, high),
            root == old(mapper).root()->0,
            frames@.len() <= pages.len(),
            grown_by(
                old(mapper).tables(),
                mapper.tables(),
                root,
                pages,
                pages.len() - frames@.len(),
            ),
            old(allocator).available() >= tables_needed(
                old(mapper).tables(),
                root,
                pages,
                pages.len() as int,
            ),
            allocator.available() == old(allocator).available() - tables_needed(
                old(mapper).tables(),
                root,
                pages,
                pages.len() - frames@.len(),
            ),
        decreases frames@.len(),
    {
        let ghost stage = *mapper;
        let ghost allocator_stage = *allocator;
        let ghost k = pages.len() - frames@.len();
        match frames.next() {
            Some(frame) => {
                proof {
                    lemma_lower_half_page(frame@);
                    assert(user_page(frame@));
                    assert(mapper.spec_leaf(frame@) is None);
                    mapper.lemma_clean_mappable(frame@);
                    assert(pages[k] == frame@);
                    lemma_missing(old(mapper).tables(), mapper.tables(), root, pages, k);
                    lemma_needed_rises(
                        old(mapper).tables(),
                        root,
                        pages,
                        k + 1,
                        pages.len() as int,
                    );
                }
                let ghost number = frame@;
                let result = mapper.identity_map(frame, flags, allocator);
                result.ignore();
                proof {
                    Mapper::lemma_kept(
                        old(mapper),
                        &stage,
                        mapper,
                        old(allocator),
                        &allocator_stage,
                        allocator,
                    );
                    Mapper::lemma_frames_conserved(
                        &stage,
                        mapper,
                        &allocator_stage,
                        allocator,
                        number,
                        number,
                        flags@,
                        false,
                    );
                    lemma_grown_step(
                        old(mapper).tables(),
                        stage.tables(),
                        mapper.tables(),
                        root,
                        pages,
                        k,
                    );
                }
            },
            None => {
                return ;
            },
        }
    }
}

/// The leaf with which the kernel's image maps the page `page`, if it holds the page.
pub open spec fn image_leaf(boot_info: &BootInformation, page: u64) -> Option<Leaf> {
    match boot_info.image_flags(page as int) {
        Some(flags) => Some(Leaf { level: 1, frame: page, flags: flags | PRESENT }),
        None => None,
    }
}

/// Maps the kernel's image into the tables that `mapper` works on: each loaded section with
/// the flags that its section flags ask for, the text buffer of the screen writable, and the
/// boot loader's record to be read only. Every page is mapped to the frame with its own
/// number.
pub fn map_kernel_image<A: FrameAllocator>(
    mapper: &mut Mapper,
    allocator: &mut A,
    boot_info: &BootInformation,
)
    requires
        old(mapper).wf(),
        old(mapper).wf_with(old(allocator)),
        old(mapper).spec_clean(),
        boot_info.image_ok(),
        forall|q: u64|
            boot_info.image_flags(q as int) is Some ==> #[trigger] old(mapper).spec_leaf(q)
                is None,
        old(allocator).available() >= old(mapper).spec_tables_needed(boot_info.image_run()),
    ensures
        Mapper::kept(old(mapper), final(mapper), old(allocator), final(allocator)),
        Mapper::frames_conserved(old(mapper), final(mapper), old(allocator), final(allocator)),
        final(mapper).spec_clean(),
        forall|q: u64|
            user_page(q) ==> #[trigger] final(mapper).spec_leaf(q) == match image_leaf(
                boot_info,
                q,
            ) {
                Some(leaf) => Some(leaf),
                None => old(mapper).spec_leaf(q),
            },
        final(allocator).available() == old(allocator).available() - old(
            mapper,
        ).spec_tables_needed(boot_info.image_run()),
        Mapper::spec_grown_by(old(mapper), final(mapper), boot_info.image_run()),
{
    let ghost sections = boot_info.elf_sections@;
    let ghost total = sections.len() as int;
    let ghost all = boot_info.image_run();
    let ghost root = mapper.root()->0;
    let ghost tables = mapper.tables();
    let mut i: usize = 0;
    proof {
        Mapper::lemma_kept_same(mapper, allocator);
    }
    while i < boot_info.elf_sections.len()
        invariant
            i <= total,
            sections == boot_info.elf_sections@,
            total == sections.len(),
            boot_info.image_ok(),
            Mapper::kept(old(mapper), mapper, old(allocator), allocator),
            Mapper::frames_conserved(old(mapper), mapper, old(allocator), allocator),
            mapper.wf(),
            mapper.wf_with(allocator),
            mapper.spec_clean(),
            forall|q: u64|
                boot_info.image_flags(q as int) is Some ==> #[trigger] old(mapper).spec_leaf(q)
                    is None,
            forall|q: u64|
                user_page(q) ==> #[trigger] mapper.spec_leaf(q) == match flags_in_sections(
                    sections,
                    i as int,
                    q as int,
                ) {
                    Some(flags) => Some(
                        Leaf {
                            level: 1,
                            frame: q,
                            flags: EntryFlags::spec_from_elf_section_flags(flags) | PRESENT,
                        },
                    ),
                    None => old(mapper).spec_leaf(q),
                },
            all == boot_info.image_run(),
            root == old(mapper).root()->0,
            tables == old(mapper).tables(),
            grown_by(
                tables,
                mapper.tables(),
                root,
                pages_of_sections(sections, i as int),
                pages_of_sections(sections, i as int).len() as int,
            ),
            old(allocator).available() >= tables_needed(tables, root, all, all.len() as int),
            allocator.available() == old(allocator).available() - tables_needed(
                tables,
                root,
                pages_of_sections(sections, i as int),
                pages_of_sections(sections, i as int).len() as int,
            ),
        decreases total - i,
    {
        let section = &boot_info.elf_sections[i];
        let ghost stage = *mapper;
        let ghost allocator_stage = *allocator;
        let ghost done = pages_of_sections(sections, i as int);
        if section.is_allocated() && section.size >= 1 {
            let flags = EntryFlags::from_elf_section_flags(section);
            let start_frame = Frame::containing_address(section.start_address());
            let end_frame = Frame::containing_address(section.end_address() - 1);
            proof {
                assert forall|q: u64| start_frame@ <= q <= end_frame@ implies #[trigger] mapper.spec_leaf(
                    q,
                ) is None by {
                    lemma_lower_half_page(q);
                    assert(in_section_at(sections, i as int, q as int));
                    lemma_flags_in_sections(sections, i as int, q as int);
                    lemma_flags_in_sections(sections, total, q as int);
                }
            }
            let ghost batch = FrameIter::spec_range(start_frame@, end_frame@);
            proof {
                assert(done + batch == pages_of_sections(sections, i as int + 1));
                lemma_pages_of_sections(sections, i as int + 1, total);
                assert forall|j: int| 0 <= j < batch.len() implies user_page(
                    #[trigger] batch[j],
                ) by {
                    lemma_lower_half_page(batch[j]);
                }
                assert forall|j: int| 0 <= j < done.len() + batch.len() implies all[j] == (done
                    + batch)[j] by {
                    assert(pages_of_sections(sections, total)[j] == pages_of_sections(
                        sections,
                        i as int + 1,
                    )[j]);
                }
                lemma_batch(tables, stage.tables(), stage.tables(), root, all, done, batch);
            }
            identity_map_range(mapper, allocator, start_frame, end_frame, flags);
            proof {
                Mapper::lemma_kept(
                    old(mapper),
                    &stage,
                    mapper,
                    old(allocator),
                    &allocator_stage,
                    allocator,
                );
                lemma_batch(tables, stage.tables(), mapper.tables(), root, all, done, batch);
            }
        }
        i = i + 1;
    }
    let ghost sections_done = pages_of_sections(sections, total);
    let ghost mapped = *mapper;
    let ghost allocator_mapped = *allocator;
    proof {
        lemma_lower_half_page(VGA_BUFFER_FRAME);
        lemma_flags_in_sections(sections, total, VGA_BUFFER_FRAME as int);
        mapper.lemma_clean_mappable(VGA_BUFFER_FRAME);
        assert forall|j: int| 0 <= j < sections_done.len() + 1 implies all[j] == (sections_done
            + seq![VGA_BUFFER_FRAME])[j] by {}
        lemma_single(mapped.tables(), mapped.tables(), root, VGA_BUFFER_FRAME);
        lemma_batch(
            tables,
            mapped.tables(),
            mapped.tables(),
            root,
            all,
            sections_done,
            seq![VGA_BUFFER_FRAME],
        );
    }
    // the text buffer of the screen
    let vga_buffer_frame = Frame::containing_address(0xb8000);
    let result = mapper.identity_map(vga_buffer_frame, EntryFlags::writable(), allocator);
    result.ignore();
    proof {
        Mapper::lemma_frames_conserved(
            &mapped,
            mapper,
            &allocator_mapped,
            allocator,
            VGA_BUFFER_FRAME,
            VGA_BUFFER_FRAME,
            crate::memory::paging::entry::WRITABLE,
            false,
        );
        lemma_single(mapped.tables(), mapper.tables(), root, VGA_BUFFER_FRAME);
        lemma_batch(
            tables,
            mapped.tables(),
            mapper.tables(),
            root,
            all,
            sections_done,
            seq![VGA_BUFFER_FRAME],
        );
    }
    let ghost with_screen = *mapper;
    let ghost allocator_with_screen = *allocator;
    let ghost screen_done = sections_done + seq![VGA_BUFFER_FRAME];
    // the boot loader's record
    let multiboot_start = Frame::containing_address(boot_info.start_address);
    let multiboot_end = Frame::containing_address(boot_info.end_address - 1);
    proof {
        Mapper::lemma_kept(
            old(mapper),
            &mapped,
            mapper,
            old(allocator),
            &allocator_mapped,
            allocator,
        );
        assert forall|q: u64| multiboot_start@ <= q <= multiboot_end@ implies #[trigger] mapper.spec_leaf(
            q,
        ) is None by {
            lemma_lower_half_page(q);
            lemma_flags_in_sections(sections, total, q as int);
            assert(mapper.spec_leaf(q) == mapped.spec_leaf(q));
        }
    }
    let ghost record = FrameIter::spec_range(multiboot_start@, multiboot_end@);
    proof {
        assert(screen_done + record =~= all);
        assert forall|j: int| 0 <= j < record.len() implies user_page(#[trigger] record[j]) by {
            lemma_lower_half_page(record[j]);
        }
        lemma_batch(tables, with_screen.tables(), with_screen.tables(), root, all, screen_done, record);
    }
    identity_map_range(mapper, allocator, multiboot_start, multiboot_end, EntryFlags::present());
    proof {
        lemma_batch(tables, with_screen.tables(), mapper.tables(), root, all, screen_done, record);
        Mapper::lemma_kept(
            old(mapper),
            &with_screen,
            mapper,
            old(allocator),
            &allocator_with_screen,
            allocator,
        );
        assert(PRESENT | PRESENT == PRESENT) by (bit_vector);
        assert forall|q: u64| user_page(q) implies #[trigger] mapper.spec_leaf(q) == match image_leaf(
            boot_info,
            q,
        ) {
            Some(leaf) => Some(leaf),
            None => old(mapper).spec_leaf(q),
        } by {
            assert(with_screen.spec_leaf(q) == if q == VGA_BUFFER_FRAME {
                Some(
                    Leaf {
                        level: 1,
                        frame: q,
                        flags: crate::memory::paging::entry::WRITABLE | PRESENT,
                    },
                )
            } else {
                mapped.spec_leaf(q)
            });
        }
    }
}

/// How many frames the tables take that map the kernel's image and nothing else: one for
/// the root table, and one for each table under it.
pub open spec fn image_frames(boot_info: &BootInformation) -> nat {
    1 + tables_needed(
        Map::empty(),
        0,
        boot_info.image_run(),
        boot_info.image_run().len() as int,
    )
}

/// Every page that the kernel is mapped with can be mapped.
pub proof fn lemma_image_run(boot_info: &BootInformation)
    requires
        boot_info.image_ok(),
    ensures
        forall|i: int|
            0 <= i < boot_info.image_run().len() ==> user_page(#[trigger] boot_info.image_run()[i]),
{
    let sections = boot_info.elf_sections@;
    let total = sections.len() as int;
    let run = boot_info.image_run();
    let first = pages_of_sections(sections, total);
    lemma_section_pages(boot_info, total);
    lemma_lower_half_page(VGA_BUFFER_FRAME);
    assert forall|i: int| 0 <= i < run.len() implies user_page(#[trigger] run[i]) by {
        if i < first.len() {
            assert(run[i] == first[i]);
        } else if i == first.len() {
            assert(run[i] == VGA_BUFFER_FRAME);
        } else {
            lemma_lower_half_page(run[i]);
        }
    }
}

/// Every page of a loaded section can be mapped.
pub proof fn lemma_section_pages(boot_info: &BootInformation, n: int)
    requires
        boot_info.image_ok(),
        0 <= n <= boot_info.elf_sections@.len(),
    ensures
        forall|i: int|
            0 <= i < pages_of_sections(boot_info.elf_sections@, n).len() ==> user_page(
                #[trigger] pages_of_sections(boot_info.elf_sections@, n)[i],
            ),
    decreases n,
{
    if n > 0 {
        let sections = boot_info.elf_sections@;
        lemma_section_pages(boot_info, n - 1);
        let before = pages_of_sections(sections, n - 1);
        let pages = pages_of_sections(sections, n);
        assert forall|i: int| 0 <= i < pages.len() implies user_page(#[trigger] pages[i]) by {
            if i < before.len() {
                assert(pages[i] == before[i]);
            } else {
                assert(sections[n - 1].spec_is_allocated());
                lemma_lower_half_page(pages[i]);
            }
        }
    }
}

/// Pages that share their table of level 1 are pages beside one another.
pub proof fn lemma_same_beside(page: u64, other: u64)
    by (bit_vector)
    requires
        page < 0x8_0000_0000,
        other < 0x8_0000_0000,
        (page >> 27) & 0o777 == (other >> 27) & 0o777,
        (page >> 18) & 0o777 == (other >> 18) & 0o777,
        (page >> 9) & 0o777 == (other >> 9) & 0o777,
    ensures
        (page & !0o777u64) | (other & 0o777) == other,
        page != other ==> page & 0o777 != other & 0o777,
{
}

/// Every page of a loaded section lies in a section that is loaded.
pub proof fn lemma_section_pages_held(boot_info: &BootInformation, n: int)
    requires
        boot_info.image_ok(),
        0 <= n <= boot_info.elf_sections@.len(),
    ensures
        forall|i: int|
            0 <= i < pages_of_sections(boot_info.elf_sections@, n).len() ==> flags_in_sections(
                boot_info.elf_sections@,
                boot_info.elf_sections@.len() as int,
                (#[trigger] pages_of_sections(boot_info.elf_sections@, n)[i]) as int,
            ) is Some,
    decreases n,
{
    if n > 0 {
        let sections = boot_info.elf_sections@;
        lemma_section_pages_held(boot_info, n - 1);
        let before = pages_of_sections(sections, n - 1);
        let pages = pages_of_sections(sections, n);
        assert forall|i: int| 0 <= i < pages.len() implies flags_in_sections(
            sections,
            sections.len() as int,
            (#[trigger] pages[i]) as int,
        ) is Some by {
            if i < before.len() {
                assert(pages[i] == before[i]);
            } else {
                assert(sections[n - 1].spec_is_allocated());
                assert(in_section_at(sections, n - 1, pages[i] as int));
                lemma_flags_in_sections(sections, sections.len() as int, pages[i] as int);
            }
        }
    }
}

/// Every page that the kernel is mapped with is one that its image holds.
pub proof fn lemma_run_in_image(boot_info: &BootInformation)
    requires
        boot_info.image_ok(),
    ensures
        forall|i: int|
            0 <= i < boot_info.image_run().len() ==> boot_info.image_flags(
                (#[trigger] boot_info.image_run()[i]) as int,
            ) is Some,
{
    let sections = boot_info.elf_sections@;
    let total = sections.len() as int;
    let run = boot_info.image_run();
    let first = pages_of_sections(sections, total);
    lemma_section_pages_held(boot_info, total);
    assert forall|i: int| 0 <= i < run.len() implies boot_info.image_flags(
        (#[trigger] run[i]) as int,
    ) is Some by {
        if i < first.len() {
            assert(run[i] == first[i]);
        } else if i == first.len() {
            assert(run[i] == VGA_BUFFER_FRAME);
        } else {
            assert(boot_info.in_record(run[i] as int));
        }
    }
}

/// A page of the kernel's image other than `except` has the same table of level `level`
/// on its way as `page`.
pub open spec fn image_shares(
    boot_info: &BootInformation,
    except: u64,
    page: u64,
    level: int,
) -> bool {
    exists|other: u64|
        boot_info.image_flags(other as int) is Some && other != except && #[trigger] same_table(
            other,
            page,
            level,
        )
}

/// How many of the new tables go when the page `guard` of the old root table is unmapped:
/// those on the way to it that no other page of the image has on its way.
pub open spec fn guard_tables(boot_info: &BootInformation, guard: u64) -> nat {
    if image_shares(boot_info, guard, guard, 1) {
        0
    } else if image_shares(boot_info, guard, guard, 2) {
        1
    } else if image_shares(boot_info, guard, guard, 3) {
        2
    } else {
        3
    }
}

/// In tables that map the kernel's image and nothing else, with a table on a way exactly
/// where a page of the image has it on its way, unmapping the page `guard` empties as
/// many tables as `guard_tables` says.
pub proof fn lemma_guard_tables(mapper: &Mapper, boot_info: &BootInformation, guard: u64)
    requires
        boot_info.image_ok(),
        mapper.wf(),
        mapper.spec_clean(),
        user_page(guard),
        boot_info.image_flags(guard as int) is Some,
        forall|q: u64| user_page(q) ==> #[trigger] mapper.spec_leaf(q) == image_leaf(boot_info, q),
        forall|q: u64, level: int|
            user_page(q) && 1 <= level <= 3 ==> #[trigger] table_there(
                mapper.tables(),
                mapper.root()->0,
                q,
                level,
            ) == shared_before(
                boot_info.image_run(),
                boot_info.image_run().len() as int,
                q,
                level,
            ),
    ensures
        mapper.spec_emptied_tables(guard) == guard_tables(boot_info, guard),
{
    let run = boot_info.image_run();
    let root = mapper.root()->0;
    lemma_run_in_image(boot_info);
    assert(mapper.spec_leaf(guard) == image_leaf(boot_info, guard));
    lemma_mapped_there(mapper.tables(), root, guard, guard, 1);
    lemma_mapped_there(mapper.tables(), root, guard, guard, 2);
    assert forall|level: int|
        1 <= level <= 3 && #[trigger] image_shares(
            boot_info,
            guard,
            guard,
            level,
        ) implies mapper.spec_emptied_tables(guard) < level by {
        let other = choose|other: u64|
            boot_info.image_flags(other as int) is Some && other != guard && #[trigger] same_table(
                other,
                guard,
                level,
            );
        lemma_image_page(boot_info, other);
        lemma_image_page(boot_info, guard);
        assert(mapper.spec_leaf(other) == image_leaf(boot_info, other));
        if same_table(other, guard, 1) {
            let first = (guard & 0o777) as int;
            let second = (other & 0o777) as int;
            assert(guard & 0o777 < 512 && other & 0o777 < 512) by (bit_vector);
            lemma_page_beside(guard, first as u64);
            lemma_page_beside(other, second as u64);
            lemma_same_beside(guard, other);
            mapper.lemma_count_of_mapped(guard);
            if first < second {
                mapper.lemma_mapped_two(guard, first, second, 512);
            } else {
                mapper.lemma_mapped_two(guard, second, first, 512);
            }
        } else if same_table(other, guard, 2) {
            lemma_mapped_there(mapper.tables(), root, other, other, 1);
            mapper.lemma_count_two(guard, other, 2);
        } else {
            lemma_mapped_there(mapper.tables(), root, other, other, 2);
            mapper.lemma_count_two(guard, other, 3);
        }
    }
    assert forall|other: u64, level: int|
        (level == 2 || level == 3) && !image_shares(boot_info, guard, guard, level) && user_page(
            other,
        ) && same_table(other, guard, level) && #[trigger] table_there(
            mapper.tables(),
            root,
            other,
            level - 1,
        ) implies same_table(other, guard, level - 1) by {
        assert(shared_before(run, run.len() as int, other, level - 1));
        lemma_shared_with(run, run.len() as int, other, level - 1);
        let j = choose|j: int| 0 <= j < run.len() && same_table(other, #[trigger] run[j], level - 1);
        let held = run[j];
        assert(boot_info.image_flags(held as int) is Some);
        if held != guard {
            assert(same_table(held, guard, level));
        }
    }
    if !image_shares(boot_info, guard, guard, 1) {
        let index = (guard & 0o777) as int;
        assert(guard & 0o777 < 512) by (bit_vector);
        lemma_page_beside(guard, index as u64);
        assert forall|j: int| 0 <= j < 512 implies (#[trigger] mapper.spec_leaf(
            page_beside(guard, j),
        ) is Some) == (j == index) by {
            lemma_beside(guard, j);
            if j != index {
                lemma_beside_beside(guard, j as u64, index as u64);
                let other = page_beside(guard, j);
                assert(mapper.spec_leaf(other) == image_leaf(boot_info, other));
                if boot_info.image_flags(other as int) is Some {
                    assert(same_table(other, guard, 1));
                }
            }
        }
        mapper.lemma_mapped_single(guard, index, 512);
        mapper.lemma_count_of_mapped(guard);
        if !image_shares(boot_info, guard, guard, 2) {
            mapper.lemma_count_single(guard, 2);
            if !image_shares(boot_info, guard, guard, 3) {
                mapper.lemma_count_single(guard, 3);
            }
        }
    }
}

/// The number of the page that `remap_the_kernel` maps for a short time to reach the new
/// root table.
pub const REMAP_TEMPORARY_PAGE: u64 = 0xcafebabe;

/// Builds new tables that map the kernel's image and nothing else, makes them the active
/// ones, and unmaps the page of the root table that was active until then, so that it
/// serves as a guard page: the frame of that table is free again, and so are the frames of
/// the new tables that held nothing but that page. Hands back the active table and the
/// allocator.
pub fn remap_the_kernel<A: FrameAllocator>(
    boot_info: &BootInformation,
    active_table: ActivePageTable,
    allocator: A,
) -> (result: (ActivePageTable, A))
    requires
        active_table.mapper.wf(),
        active_table.mapper.wf_with(&allocator),
        active_table.mapper.spec_clean(),
        active_table.mapper.spec_is_root(active_table.mapper.active_p4()),
        active_table.mapper.spec_leaf(REMAP_TEMPORARY_PAGE) is None,
        boot_info.image_ok(),
        boot_info.image_flags(active_table.mapper.active_p4() as int) is Some,
        allocator.available() >= image_frames(boot_info) + active_table.mapper.spec_missing_tables(
            REMAP_TEMPORARY_PAGE,
        ),
    ensures
        result.0.mapper.wf(),
        result.0.mapper.wf_with(&result.1),
        result.0.mapper.spec_clean(),
        result.0.mapper.spec_is_root(result.0.mapper.active_p4()),
        allocator.free_frames().contains(result.0.mapper.active_p4()),
        Mapper::frames_conserved(&active_table.mapper, &result.0.mapper, &allocator, &result.1),
        result.1.frame_limit() == allocator.frame_limit(),
        result.1.available() == allocator.available() - image_frames(boot_info)
            - active_table.mapper.spec_missing_tables(REMAP_TEMPORARY_PAGE) + 1
            + result.0.mapper.spec_missing_tables(active_table.mapper.active_p4()),
        result.0.mapper.spec_missing_tables(active_table.mapper.active_p4()) == guard_tables(
            boot_info,
            active_table.mapper.active_p4(),
        ),
        forall|q: u64|
            user_page(q) ==> #[trigger] result.0.mapper.spec_leaf(q) == if q
                == active_table.mapper.active_p4() {
                None
            } else {
                image_leaf(boot_info, q)
            },
        result.0.commands@ == active_table.commands@.push(
            TlbCommand::FlushPage((REMAP_TEMPORARY_PAGE * 4096) as u64),
        ).push(TlbCommand::FlushPage((REMAP_TEMPORARY_PAGE * 4096) as u64)).push(
            TlbCommand::FlushPage((REMAP_TEMPORARY_PAGE * 4096) as u64),
        ).push(TlbCommand::FlushAll).push(TlbCommand::FlushAll).push(
            TlbCommand::FlushPage((REMAP_TEMPORARY_PAGE * 4096) as u64),
        ).push(TlbCommand::LoadRoot((result.0.mapper.active_p4() * 4096) as u64)).push(
            TlbCommand::FlushPage((active_table.mapper.active_p4() * 4096) as u64),
        ),
{
    let mut active_table = active_table;
    let mut allocator = allocator;
    let ghost before = active_table.mapper;
    let ghost allocator_before = allocator;
    let ghost old_p4 = before.active_p4();
    proof {
        lemma_lower_half_page(REMAP_TEMPORARY_PAGE);
        Mapper::lemma_root_is_p4(&before);
        before.lemma_clean_mappable(REMAP_TEMPORARY_PAGE);
        lemma_image_page(boot_info, old_p4);
        lemma_image_run(boot_info);
    }
    let ghost run = boot_info.image_run();
    let mut temporary_page = TemporaryPage::new(Page::from_number(REMAP_TEMPORARY_PAGE));
    let frame = allocator.allocate_frame().unwrap();
    proof {
        allocator_before.lemma_free_below_limit(frame@);
    }
    let new_table = InactivePageTable::new(
        frame,
        &mut active_table,
        &mut temporary_page,
        &mut allocator,
    );
    let ghost prepared = active_table.mapper;
    let ghost allocator_prepared = allocator;
    proof {
        Mapper::lemma_root_is_p4(&prepared);
        prepared.lemma_clean_mappable(REMAP_TEMPORARY_PAGE);
    }
    let mapping = |mapper: Mapper, allocator: A| -> (mapped: (Mapper, A))
        requires
            mapper.wf(),
            mapper.wf_with(&allocator),
            mapper.spec_clean(),
            boot_info.image_ok(),
            forall|q: u64| user_page(q) ==> #[trigger] mapper.spec_leaf(q) is None,
            allocator.available() >= mapper.spec_tables_needed(boot_info.image_run()),
        ensures
            Mapper::kept(&mapper, &mapped.0, &allocator, &mapped.1),
            Mapper::frames_conserved(&mapper, &mapped.0, &allocator, &mapped.1),
            mapped.0.spec_clean(),
            mapped.1.available() == allocator.available() - mapper.spec_tables_needed(
                boot_info.image_run(),
            ),
            Mapper::spec_grown_by(&mapper, &mapped.0, boot_info.image_run()),
            forall|q: u64| user_page(q) ==> #[trigger] mapped.0.spec_leaf(q) == image_leaf(boot_info, q),
        {
            let mut mapper = mapper;
            let mut allocator = allocator;
            proof {
                assert forall|q: u64|
                    boot_info.image_flags(q as int) is Some implies #[trigger] mapper.spec_leaf(
                    q,
                ) is None by {
                    lemma_image_page(boot_info, q);
                }
            }
            map_kernel_image(&mut mapper, &mut allocator, boot_info);
            (mapper, allocator)
        };
    proof {
        assert forall|inside: Mapper, allocator_inside: A|
            ActivePageTable::entered(
                &prepared,
                &allocator_prepared,
                new_table@,
                REMAP_TEMPORARY_PAGE,
                &inside,
                &allocator_inside,
            ) implies inside.spec_tables_needed(run) + 1 == image_frames(boot_info) by {
            lemma_needed_under_new_root(
                inside.tables(),
                frame@,
                word_set(0, frame@, PRESENT | WRITABLE),
                run,
            );
        }
    }
    let (active, allocator_done) = active_table.with(
        &new_table,
        &mut temporary_page,
        allocator,
        mapping,
    );
    let mut active_table = active;
    let mut allocator = allocator_done;
    let ghost edited = active_table.mapper;
    proof {
        let (inside, allocator_inside, done, done_allocator) = choose|
            inside: Mapper,
            allocator_inside: A,
            done: Mapper,
            done_allocator: A,
        |
            ActivePageTable::entered(
                &prepared,
                &allocator_prepared,
                new_table@,
                REMAP_TEMPORARY_PAGE,
                &inside,
                &allocator_inside,
            ) && mapping.ensures((inside, allocator_inside), (done, done_allocator))
                && ActivePageTable::left(
                &done,
                &done_allocator,
                new_table@,
                &edited,
                &allocator,
            );
        assert forall|q: u64| user_page(q) implies #[trigger] edited.spec_leaf_from(new_table@, q)
            == image_leaf(boot_info, q) by {
            assert(done.spec_leaf(q) == image_leaf(boot_info, q));
        }
        assert(inside.spec_clean());
        assert(done.spec_clean());
        assert(edited.spec_clean());
        assert(inside.spec_tables_needed(run) + 1 == image_frames(boot_info));
        assert(allocator.free_frames().union(edited.table_frames())
            =~= allocator_before.free_frames().union(before.table_frames()));
        assert(allocator.available() == allocator_before.available() - image_frames(boot_info)
            - before.spec_missing_tables(REMAP_TEMPORARY_PAGE));
        assert(allocator.frame_limit() == allocator_before.frame_limit());
        assert forall|q: u64, level: int|
            user_page(q) && 1 <= level <= 3 implies #[trigger] table_there(
            edited.tables(),
            frame@,
            q,
            level,
        ) == shared_before(run, run.len() as int, q, level) by {
            lemma_table_indices(q, q);
            crate::memory::paging::entry::lemma_word_ranges(0);
            assert(!table_there(inside.tables(), frame@, q, level));
            assert(table_there(done.tables(), frame@, q, level) == (table_there(
                inside.tables(),
                frame@,
                q,
                level,
            ) || shared_before(run, run.len() as int, q, level)));
            assert(table_there(edited.tables(), frame@, q, level) == table_there(
                done.tables(),
                frame@,
                q,
                level,
            ));
        }
    }
    let old_table = active_table.switch(new_table);
    let ghost switched = active_table.mapper;
    // turn the page of the old root table into a guard page
    active_table.mapper.forget_root(&old_table.p4_frame);
    let ghost forgotten = active_table.mapper;
    let old_p4_page = Page::containing_address(old_table.p4_frame.start_address());
    proof {
        assert forall|q: u64| user_page(q) implies #[trigger] forgotten.spec_leaf(q) == image_leaf(
            boot_info,
            q,
        ) by {
            assert(switched.spec_leaf_from(frame@, q) == edited.spec_leaf_from(frame@, q));
            assert(forgotten.spec_leaf_from(frame@, q) == switched.spec_leaf_from(frame@, q));
        }
        assert(forgotten.spec_leaf(old_p4) == image_leaf(boot_info, old_p4));
        assert(allocator.frame_limit() == allocator_before.frame_limit());
        assert(switched.spec_clean());
        assert(forgotten.spec_clean());
        assert forall|q: u64, level: int|
            user_page(q) && 1 <= level <= 3 implies #[trigger] table_there(
            forgotten.tables(),
            frame@,
            q,
            level,
        ) == shared_before(run, run.len() as int, q, level) by {
            switched.lemma_levels_on_the_way(q);
            Mapper::lemma_root_is_p4(&switched);
            switched.lemma_entry_counts(old_p4);
            assert(table_there(forgotten.tables(), frame@, q, level) == table_there(
                edited.tables(),
                frame@,
                q,
                level,
            ));
        }
        lemma_guard_tables(&forgotten, boot_info, old_p4);
    }
    let result = active_table.mapper.unmap(old_p4_page, &mut allocator);
    let ghost unmapped = active_table.mapper;
    result.flush(&mut active_table);
    proof {
        assert(allocator.free_frames().union(unmapped.table_frames())
            =~= allocator_before.free_frames().union(before.table_frames()));
        assert(unmapped.spec_clean());
        assert forall|q: u64| user_page(q) implies #[trigger] active_table.mapper.spec_leaf(q)
            == if q == old_p4 {
            None
        } else {
            image_leaf(boot_info, q)
        } by {
            assert(forgotten.spec_leaf(q) == image_leaf(boot_info, q));
        }
    }
    (active_table, allocator)
}

/// A page that the kernel's image holds lies in the lower half of the address space.
pub proof fn lemma_image_page(boot_info: &BootInformation, page: u64)
    requires
        boot_info.image_ok(),
        boot_info.image_flags(page as int) is Some,
    ensures
        page < 0x8_0000_0000,
        user_page(page),
{
    let sections = boot_info.elf_sections@;
    lemma_flags_in_sections(sections, sections.len() as int, page as int);
    if flags_in_sections(sections, sections.len() as int, page as int) is Some {
        let j = choose|j: int| 0 <= j < sections.len() && in_section_at(sections, j, page as int);
        assert(sections[j].spec_is_allocated());
    }
    if page < 0x8_0000_0000 {
        lemma_lower_half_page(page);
    }
}

} // verus!
