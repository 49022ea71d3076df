use vstd::prelude::*;
use crate::memory::Frame;
use crate::memory::FrameAllocator;
use crate::memory::paging::ActivePageTable;
use crate::memory::paging::entry::EntryFlags;
use crate::memory::paging::entry::FRAME_LIMIT;
use crate::memory::paging::entry::WRITABLE;
use crate::memory::paging::mapper::Mapper;
use crate::memory::paging::Page;
use crate::memory::paging::TlbCommand;
use crate::memory::paging::VirtualAddress;

verus! {

/// A page that is mapped for a short time, to reach a frame that is not mapped otherwise.
pub struct TemporaryPage {
    page: Page,
}

impl View for TemporaryPage {
    type V = u64;

    /// The number of the page.
    closed spec fn view(&self) -> u64 {
        self.page@
    }
}

impl TemporaryPage {
    pub fn new(page: Page) -> (temporary_page: TemporaryPage)
        ensures
            temporary_page@ == page@,
    {
        TemporaryPage { page }
    }

    pub fn start_address(&self) -> (address: VirtualAddress)
        ensures
            address == self@ * 4096,
    {
        self.page.start_address()
    }

    /// Maps the temporary page to `frame` in the active table, writable, and hands back the
    /// address of the page.
    pub fn map<A: FrameAllocator>(
        &mut self,
        frame: Frame,
        active_table: &mut ActivePageTable,
        allocator: &mut A,
    ) -> (address: VirtualAddress)
        requires
            old(active_table).mapper.wf(),
            old(active_table).mapper.wf_with(old(allocator)),
            old(active_table).mapper.spec_translate_page(old(self)@) is None,
            old(active_table).mapper.spec_mappable(old(self)@),
            frame@ < FRAME_LIMIT,
            old(allocator).available() >= old(active_table).mapper.spec_missing_tables(old(self)@),
        ensures
            final(self)@ == old(self)@,
            address == old(self)@ * 4096,
            Mapper::mapped_to(
                &old(active_table).mapper,
                &final(active_table).mapper,
                old(allocator),
                final(allocator),
                old(self)@,
                frame@,
                WRITABLE,
            ),
            final(active_table).commands@ == old(active_table).commands@.push(
                TlbCommand::FlushPage((old(self)@ * 4096) as u64),
            ),
    {
        let result = active_table.mapper.map_to(self.page, frame, EntryFlags::writable(), allocator);
        result.flush(active_table);
        self.page.start_address()
    }

    /// Unmaps the temporary page in the active table. The tables on the way to it stay.
    pub fn unmap<A: FrameAllocator>(
        &mut self,
        active_table: &mut ActivePageTable,
        allocator: &mut A,
    )
        requires
            old(active_table).mapper.wf(),
            old(active_table).mapper.wf_with(old(allocator)),
            old(active_table).mapper.spec_mapped_small(old(self)@),
        ensures
            final(self)@ == old(self)@,
            Mapper::unmapped(
                &old(active_table).mapper,
                &final(active_table).mapper,
                old(allocator),
                final(allocator),
                old(self)@,
                true,
            ),
            final(active_table).commands@ == old(active_table).commands@.push(
                TlbCommand::FlushPage((old(self)@ * 4096) as u64),
            ),
    {
        let (result, _frame) = active_table.mapper.unmap_return(self.page, true, allocator);
        result.flush(active_table);
    }

    /// Maps the temporary page to `frame`, which is to hold a page table, and hands back
    /// the frame that the page now shows.
    pub fn map_table_frame<A: FrameAllocator>(
        &mut self,
        frame: Frame,
        active_table: &mut ActivePageTable,
        allocator: &mut A,
    ) -> (table: Frame)
        requires
            old(active_table).mapper.wf(),
            old(active_table).mapper.wf_with(old(allocator)),
            old(active_table).mapper.spec_translate_page(old(self)@) is None,
            old(active_table).mapper.spec_mappable(old(self)@),
            frame@ < FRAME_LIMIT,
            old(allocator).available() >= old(active_table).mapper.spec_missing_tables(old(self)@),
        ensures
            final(self)@ == old(self)@,
            table@ == frame@,
            Some(table@) == final(active_table).mapper.spec_translate_page(old(self)@),
            Mapper::mapped_to(
                &old(active_table).mapper,
                &final(active_table).mapper,
                old(allocator),
                final(allocator),
                old(self)@,
                frame@,
                WRITABLE,
            ),
            final(active_table).commands@ == old(active_table).commands@.push(
                TlbCommand::FlushPage((old(self)@ * 4096) as u64),
            ),
    {
        let shown = frame.clone();
        self.map(frame, active_table, allocator);
        shown
    }
}

} // verus!
