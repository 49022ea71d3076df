use vstd::prelude::*;
use crate::memory::bitmap_frame_allocator::areas_fit;
use crate::memory::bitmap_frame_allocator::BitmapFrameAllocator;
use crate::memory::bitmap_frame_allocator::frame_of;
use crate::memory::bitmap_frame_allocator::max_end;
use crate::memory::bitmap_frame_allocator::MAX_MEM_SIZE;
use crate::memory::bitmap_frame_allocator::NUM_OF_FRAMES;
use crate::memory::bitmap_frame_allocator::reserved;
use crate::memory::bitmap_frame_allocator::unreserved_below;
use crate::memory::boot::BootInformation;
use crate::memory::boot::ElfSection;
use crate::memory::boot::MemoryArea;
use crate::memory::heap_allocator::HEAP_FIRST_PAGE;
use crate::memory::heap_allocator::HEAP_LAST_PAGE;
use crate::memory::heap_allocator::HEAP_SIZE;
use crate::memory::heap_allocator::HEAP_START;
use crate::memory::heap_allocator::lemma_heap_pages;
use crate::memory::paging::ActivePageTable;
use crate::memory::paging::entry::EntryFlags;
use crate::memory::paging::entry::PRESENT;
use crate::memory::paging::entry::WRITABLE;
use crate::memory::paging::guard_tables;
use crate::memory::paging::image_frames;
use crate::memory::paging::image_leaf;
use crate::memory::paging::lemma_image_page;
use crate::memory::paging::mapper::Mapper;
use crate::memory::paging::need::lemma_mapped_there;
use crate::memory::paging::need::lemma_needed_shared;
use crate::memory::paging::Page;
use crate::memory::paging::PageIter;
use crate::memory::paging::REMAP_TEMPORARY_PAGE;
use crate::memory::paging::remap_the_kernel;
use crate::memory::paging::TlbCommand;
use crate::memory::paging::tree::same_table;
use crate::memory::paging::tree::table_there;
use crate::memory::paging::tree::user_page;
use crate::memory::stack_allocator::flushes;
use crate::memory::stack_allocator::map_range;
use crate::memory::stack_allocator::range_frames;
use crate::memory::stack_allocator::range_mapped;
use crate::memory::stack_allocator::Stack;
use crate::memory::stack_allocator::StackAllocator;

pub mod bitmap_frame_allocator;
pub mod boot;
pub mod boot_check;
pub mod heap_allocator;
pub mod paging;
pub mod stack_allocator;

verus! {

/// Size of a frame and of a page, in bytes.
pub const PAGE_SIZE: u64 = 4096;

/// An address of physical memory.
pub type PhysicalAddress = u64;

/// A physical frame of `PAGE_SIZE` bytes, named by its number.
#[derive(Debug, PartialEq, Eq, Structural, PartialOrd, Ord)]
pub struct Frame {
    number: u64,
}

impl View for Frame {
    type V = u64;

    /// The frame number.
    closed spec fn view(&self) -> u64 {
        self.number
    }
}

impl Frame {
    #[verifier::type_invariant]
    spec fn in_range(self) -> bool {
        self.number <= u64::MAX / 4096
    }

    /// Two frames with the same number are the same frame.
    pub proof fn lemma_view_injective(a: Frame, b: Frame)
        requires
            a@ == b@,
        ensures
            a == b,
    {
    }

    pub fn number(&self) -> (n: u64)
        ensures
            n == self@,
            n <= u64::MAX / 4096,
    {
        proof {
            use_type_invariant(self);
        }
        self.number
    }

    /// The frame with the number `number`.
    pub fn from_number(number: u64) -> (frame: Frame)
        requires
            number <= u64::MAX / 4096,
        ensures
            frame@ == number,
    {
        Frame { number }
    }

    /// The frame that holds the byte at `address`.
    pub fn containing_address(address: PhysicalAddress) -> (frame: Frame)
        ensures
            frame@ == address / 4096,
    {
        Frame { number: address / PAGE_SIZE }
    }

    /// The address of the frame's first byte.
    pub fn start_address(&self) -> (address: PhysicalAddress)
        ensures
            address == self@ * 4096,
    {
        proof {
            use_type_invariant(self);
        }
        self.number * PAGE_SIZE
    }

    /// The frames from `start` to `end`, both included, in rising order.
    pub fn range_inclusive(start: Frame, end: Frame) -> (iter: FrameIter)
        ensures
            iter@ == FrameIter::spec_range(start@, end@),
    {
        let iter = FrameIter { start: start.number(), end: end.number() };
        proof {
            iter.lemma_view();
        }
        iter
    }

    pub fn clone(&self) -> (frame: Frame)
        ensures
            frame == *self,
    {
        proof {
            use_type_invariant(self);
        }
        Frame { number: self.number }
    }
}

/// The frames that are still to come out of a range.
pub struct FrameIter {
    start: u64,
    end: u64,
}

impl View for FrameIter {
    type V = Seq<u64>;

    /// The numbers of the frames still to come, in the order in which they come.
    closed spec fn view(&self) -> Seq<u64> {
        Self::spec_range(self.start, self.end)
    }
}

impl FrameIter {
    #[verifier::type_invariant]
    spec fn in_range(self) -> bool {
        self.end <= u64::MAX / 4096
    }

    /// The numbers from `start` to `end`, both included; empty where `start > end`.
    pub open spec fn spec_range(start: u64, end: u64) -> Seq<u64> {
        if start <= end {
            Seq::new((end - start + 1) as nat, |i: int| (start + i) as u64)
        } else {
            Seq::empty()
        }
    }

    proof fn lemma_view(&self)
        ensures
            self@ == Self::spec_range(self.start, self.end),
    {
    }

    /// Hands out the first frame that is left, if any.
    pub fn next(&mut self) -> (frame: Option<Frame>)
        ensures
            match frame {
                Some(f) => old(self)@.len() > 0 && f@ == old(self)@[0] && final(self)@
                    == old(self)@.drop_first(),
                None => old(self)@.len() == 0 && final(self)@ == old(self)@,
            },
    {
        proof {
            use_type_invariant(&*self);
        }
        if self.start <= self.end {
            let frame = Frame { number: self.start };
            proof {
                assert(Self::spec_range((self.start + 1) as u64, self.end) =~= Self::spec_range(
                    self.start,
                    self.end,
                ).drop_first());
            }
            self.start = self.start + 1;
            Some(frame)
        } else {
            None
        }
    }
}

/// A source of free frames.
pub trait FrameAllocator {
    /// The allocator's own consistency.
    spec fn wf(&self) -> bool;

    /// The numbers of the frames that the allocator may hand out.
    spec fn free_frames(&self) -> Set<u64>;

    /// One more than the largest frame number that the allocator looks after.
    spec fn frame_limit(&self) -> u64;

    /// How many frames are free: as many calls of `allocate_frame` in a row succeed.
    spec fn available(&self) -> nat;

    /// Every free frame lies below the limit.
    proof fn lemma_free_below_limit(&self, n: u64)
        requires
            self.wf(),
            self.free_frames().contains(n),
        ensures
            n < self.frame_limit(),
    ;

    /// Hands out a free frame, which is then no longer free. There is no frame exactly
    /// where none is free, which is where `available` is 0.
    fn allocate_frame(&mut self) -> (frame: Option<Frame>)
        requires
            old(self).wf(),
        ensures
            final(self).wf(),
            final(self).frame_limit() == old(self).frame_limit(),
            frame is Some <==> old(self).available() > 0,
            match frame {
                Some(f) => {
                    &&& old(self).free_frames().contains(f@)
                    &&& final(self).free_frames() == old(self).free_frames().remove(f@)
                    &&& final(self).available() == old(self).available() - 1
                },
                None => {
                    &&& old(self).free_frames() == Set::<u64>::empty()
                    &&& final(self).free_frames() == old(self).free_frames()
                    &&& final(self).available() == 0
                },
            },
    ;

    /// Takes a frame back, which is then free.
    fn deallocate_frame(&mut self, frame: Frame)
        requires
            old(self).wf(),
            frame@ < old(self).frame_limit(),
        ensures
            final(self).wf(),
            final(self).frame_limit() == old(self).frame_limit(),
            final(self).free_frames() == old(self).free_frames().insert(frame@),
            final(self).available() == old(self).available() + if old(self).free_frames().contains(
                frame@,
            ) {
                0nat
            } else {
                1nat
            },
    ;
}

/// The number of pages that are set aside for stacks, less one.
pub const STACK_ALLOCATOR_PAGES: u64 = 100;

/// Sets up the frame allocator in `allocator`, which holds none yet.
pub fn frame_allocator_init(
    allocator: &mut Option<BitmapFrameAllocator>,
    kernel_start: u64,
    kernel_end: u64,
    multiboot_start: u64,
    multiboot_end: u64,
    memory_areas: &Vec<MemoryArea>,
)
    requires
        *old(allocator) is None,
        areas_fit(memory_areas@),
        kernel_end < MAX_MEM_SIZE,
        multiboot_end < MAX_MEM_SIZE,
    ensures
        *final(allocator) matches Some(a) && {
            &&& a.valid()
            &&& a.last() == frame_of(max_end(memory_areas@, memory_areas@.len() as int))
            &&& a.cursor() == 1
            &&& !a.scanned_twice()
            &&& forall|n: u64|
                n < NUM_OF_FRAMES ==> #[trigger] a.used(n) == reserved(
                    memory_areas@,
                    kernel_start,
                    kernel_end,
                    multiboot_start,
                    multiboot_end,
                    n as int,
                )
            &&& a.spec_available() == unreserved_below(
                memory_areas@,
                kernel_start,
                kernel_end,
                multiboot_start,
                multiboot_end,
                a.last() as int,
            )
        },
{
    *allocator = Some(
        BitmapFrameAllocator::new(
            kernel_start,
            kernel_end,
            multiboot_start,
            multiboot_end,
            memory_areas,
        ),
    );
}

/// Takes a frame from the allocator in `allocator`, which has been set up.
pub fn allocate_frame(allocator: &mut Option<BitmapFrameAllocator>) -> (frame: Option<Frame>)
    requires
        *old(allocator) matches Some(a) && a.valid(),
    ensures
        *final(allocator) is Some,
        final(allocator)->0.valid(),
        final(allocator)->0.last() == old(allocator)->0.last(),
        frame is Some <==> old(allocator)->0.spec_available() > 0,
        BitmapFrameAllocator::allocated(
            &old(allocator)->0,
            &final(allocator)->0,
            match frame {
                Some(f) => Some(f@),
                None => None,
            },
        ),
        match frame {
            Some(f) => {
                &&& old(allocator)->0.free_frames().contains(f@)
                &&& final(allocator)->0.free_frames() == old(allocator)->0.free_frames().remove(f@)
                &&& final(allocator)->0.spec_available() == old(allocator)->0.spec_available() - 1
            },
            None => old(allocator)->0.free_frames() == Set::<u64>::empty(),
        },
{
    match allocator {
        Some(allocator) => allocator.allocate_frame(),
        None => None,
    }
}

/// Gives `frame` back to the allocator in `allocator`, which has been set up.
pub fn deallocate_frame(allocator: &mut Option<BitmapFrameAllocator>, frame: Frame)
    requires
        *old(allocator) matches Some(a) && a.valid() && frame@ < a.last(),
    ensures
        *final(allocator) is Some,
        final(allocator)->0.valid(),
        final(allocator)->0.last() == old(allocator)->0.last(),
        BitmapFrameAllocator::deallocated(&old(allocator)->0, &final(allocator)->0, frame@),
        final(allocator)->0.free_frames() == old(allocator)->0.free_frames().insert(frame@),
        final(allocator)->0.spec_available() == old(allocator)->0.spec_available() + if old(
            allocator,
        )->0.used(frame@) {
            1nat
        } else {
            0nat
        },
{
    match allocator {
        Some(allocator) => allocator.deallocate_frame(frame),
        None => {},
    }
}

/// The active table of the kernel and the allocator of its stacks.
pub struct MemoryController {
    pub active_table: ActivePageTable,
    pub stack_allocator: StackAllocator,
}

impl MemoryController {
    /// A stack of `size_in_pages` pages with an unmapped guard page before it, if pages
    /// were asked for and enough are left.
    pub fn alloc_stack<A: FrameAllocator>(&mut self, size_in_pages: usize, allocator: &mut A) -> (stack:
        Option<Stack>)
        requires
            old(self).stack_allocator.wf(),
            old(self).active_table.mapper.wf(),
            old(self).active_table.mapper.wf_with(old(allocator)),
            old(self).active_table.mapper.spec_clean(),
            forall|i: int|
                0 <= i < old(self).stack_allocator@.len() ==> user_page(
                    #[trigger] old(self).stack_allocator@[i],
                ) && old(self).active_table.mapper.spec_leaf(old(self).stack_allocator@[i])
                    is None,
            1 <= size_in_pages < old(self).stack_allocator@.len() ==> old(allocator).available()
                >= range_frames(
                &old(self).active_table.mapper,
                old(self).stack_allocator@[1],
                old(self).stack_allocator@[size_in_pages as int],
            ),
        ensures
            final(self).stack_allocator.wf(),
            stack is Some <==> 1 <= size_in_pages < old(self).stack_allocator@.len(),
            stack matches Some(s) ==> {
                &&& StackAllocator::stack_taken(
                    &old(self).stack_allocator,
                    &final(self).stack_allocator,
                    size_in_pages as nat,
                    &s,
                )
                &&& final(self).active_table.mapper.spec_leaf(old(self).stack_allocator@[0])
                    is None
                &&& range_mapped(
                    &old(self).active_table,
                    &final(self).active_table,
                    old(allocator),
                    final(allocator),
                    old(self).stack_allocator@[1],
                    old(self).stack_allocator@[size_in_pages as int],
                    WRITABLE,
                )
            },
            stack is None ==> {
                &&& final(self).stack_allocator@ == old(self).stack_allocator@
                &&& final(self).active_table == old(self).active_table
                &&& *final(allocator) == *old(allocator)
            },
    {
        self.stack_allocator.alloc_stack(&mut self.active_table, size_in_pages, allocator)
    }
}

/// The lowest start among the first `n` of `sections` that are loaded to memory.
pub open spec fn kernel_start_of(sections: Seq<ElfSection>, n: int) -> Option<u64>
    decreases n,
{
    if n <= 0 {
        None
    } else if sections[n - 1].spec_is_allocated() {
        match kernel_start_of(sections, n - 1) {
            Some(start) => Some(
                if sections[n - 1].addr < start {
                    sections[n - 1].addr
                } else {
                    start
                },
            ),
            None => Some(sections[n - 1].addr),
        }
    } else {
        kernel_start_of(sections, n - 1)
    }
}

/// The highest end among the first `n` of `sections` that are loaded to memory.
pub open spec fn kernel_end_of(sections: Seq<ElfSection>, n: int) -> Option<u64>
    decreases n,
{
    if n <= 0 {
        None
    } else if sections[n - 1].spec_is_allocated() {
        let end = (sections[n - 1].addr + sections[n - 1].size) as u64;
        match kernel_end_of(sections, n - 1) {
            Some(highest) => Some(
                if end > highest {
                    end
                } else {
                    highest
                },
            ),
            None => Some(end),
        }
    } else {
        kernel_end_of(sections, n - 1)
    }
}

/// The lowest start and the highest end of the sections that are loaded to memory; none
/// where no section is.
pub fn kernel_bounds(sections: &Vec<ElfSection>) -> (bounds: Option<(u64, u64)>)
    requires
        forall|i: int|
            0 <= i < sections@.len() && (#[trigger] sections@[i]).spec_is_allocated()
                ==> sections@[i].addr + sections@[i].size <= u64::MAX,
    ensures
        match bounds {
            Some((start, end)) => kernel_start_of(sections@, sections@.len() as int) == Some(start)
                && kernel_end_of(sections@, sections@.len() as int) == Some(end),
            None => kernel_start_of(sections@, sections@.len() as int) is None,
        },
{
    let mut bounds: Option<(u64, u64)> = None;
    let mut i: usize = 0;
    while i < sections.len()
        invariant
            i <= sections@.len(),
            forall|i: int|
                0 <= i < sections@.len() && (#[trigger] sections@[i]).spec_is_allocated()
                    ==> sections@[i].addr + sections@[i].size <= u64::MAX,
            match bounds {
                Some((start, end)) => kernel_start_of(sections@, i as int) == Some(start)
                    && kernel_end_of(sections@, i as int) == Some(end),
                None => kernel_start_of(sections@, i as int) is None && kernel_end_of(
                    sections@,
                    i as int,
                ) is None,
            },
        decreases sections@.len() - i,
    {
        let section = &sections[i];
        if section.is_allocated() {
            let start = section.start_address();
            let end = section.end_address();
            bounds = match bounds {
                Some((lowest, highest)) => Some(
                    (
                        if start < lowest {
                            start
                        } else {
                            lowest
                        },
                        if end > highest {
                            end
                        } else {
                            highest
                        },
                    ),
                ),
                None => Some((start, end)),
            };
        }
        i = i + 1;
    }
    bounds
}

/// What `init` asks of what the boot loader hands over: the kernel's image can be mapped,
/// the usable memory can be taken into the bitmap, the image and the boot loader's record
/// lie in the first 4 GiB, and a section at least is loaded to memory.
pub open spec fn boot_ok(boot_info: &BootInformation) -> bool {
    &&& boot_info.image_ok()
    &&& areas_fit(boot_info.memory_areas@)
    &&& boot_info.end_address < MAX_MEM_SIZE
    &&& kernel_start_of(boot_info.elf_sections@, boot_info.elf_sections@.len() as int) is Some
    &&& forall|i: int|
        0 <= i < boot_info.elf_sections@.len() && (
        #[trigger] boot_info.elf_sections@[i]).spec_is_allocated()
            ==> boot_info.elf_sections@[i].addr + boot_info.elf_sections@[i].size < MAX_MEM_SIZE
}

/// The frame `frame` is reserved when the frame allocator is set up for `boot_info`.
pub open spec fn boot_reserved(boot_info: &BootInformation, frame: int) -> bool {
    reserved(
        boot_info.memory_areas@,
        kernel_start_of(boot_info.elf_sections@, boot_info.elf_sections@.len() as int)->0,
        kernel_end_of(boot_info.elf_sections@, boot_info.elf_sections@.len() as int)->0,
        boot_info.start_address,
        boot_info.end_address,
        frame,
    )
}

/// How many frames are free when the frame allocator is set up for `boot_info`.
pub open spec fn boot_free_frames(boot_info: &BootInformation) -> nat {
    unreserved_below(
        boot_info.memory_areas@,
        kernel_start_of(boot_info.elf_sections@, boot_info.elf_sections@.len() as int)->0,
        kernel_end_of(boot_info.elf_sections@, boot_info.elf_sections@.len() as int)->0,
        boot_info.start_address,
        boot_info.end_address,
        frame_of(max_end(boot_info.memory_areas@, boot_info.memory_areas@.len() as int)),
    )
}

/// A page of the kernel's image other than `guard` has the same table of level `level` on
/// its way as the pages of the heap, so that the table is there once the kernel is
/// remapped and the page `guard` unmapped.
pub open spec fn heap_table_shared(boot_info: &BootInformation, guard: u64, level: int) -> bool {
    exists|page: u64|
        boot_info.image_flags(page as int) is Some && page != guard && #[trigger] same_table(
            page,
            HEAP_FIRST_PAGE,
            level,
        )
}

/// How many frames the heap takes once the kernel is remapped: one for each of its pages,
/// and one for each table on the way to them that no page of the image has on its way.
/// The pages of the heap share one table of each level.
pub open spec fn heap_frames(boot_info: &BootInformation, guard: u64) -> nat {
    (HEAP_LAST_PAGE - HEAP_FIRST_PAGE + 1) as nat + (if heap_table_shared(boot_info, guard, 3) {
        0nat
    } else {
        1nat
    }) + (if heap_table_shared(boot_info, guard, 2) {
        0nat
    } else {
        1nat
    }) + (if heap_table_shared(boot_info, guard, 1) {
        0nat
    } else {
        1nat
    })
}

/// How many frames `init` takes from the frame allocator: those for the new tables of the
/// kernel's image, those for the tables that are missing on the way to the temporary page,
/// and those for the heap, less the frames that are free again when the heap is mapped:
/// that of the old root table, and those of the new tables that held nothing but the page
/// of the old root table.
pub open spec fn init_frames(boot_info: &BootInformation, active: &Mapper) -> int {
    image_frames(boot_info) + active.spec_missing_tables(REMAP_TEMPORARY_PAGE) + heap_frames(
        boot_info,
        active.active_p4(),
    ) - 1 - guard_tables(boot_info, active.active_p4())
}

/// The pages of the heap share one table of each level.
pub proof fn lemma_heap_shared(page: u64)
    by (bit_vector)
    requires
        0x4_0000 <= page <= 0x4_004f,
    ensures
        (page >> 27) & 0o777 == (0x4_0000u64 >> 27) & 0o777,
        (page >> 18) & 0o777 == (0x4_0000u64 >> 18) & 0o777,
        (page >> 9) & 0o777 == (0x4_0000u64 >> 9) & 0o777,
{
}

/// Sets up the memory of the kernel: the frame allocator, new page tables that map the
/// kernel's image, the pages of the heap, and the range of pages for stacks behind the
/// heap. Hands back the controller and the frame allocator.
pub fn init(boot_info: &BootInformation, active_table: ActivePageTable) -> (result: (
    MemoryController,
    BitmapFrameAllocator,
))
    requires
        boot_ok(boot_info),
        active_table.mapper.wf(),
        active_table.mapper.spec_clean(),
        active_table.mapper.spec_is_root(active_table.mapper.active_p4()),
        active_table.mapper.spec_leaf(REMAP_TEMPORARY_PAGE) is None,
        boot_info.image_flags(active_table.mapper.active_p4() as int) is Some,
        forall|f: u64| #[trigger]
            active_table.mapper.table_frames().contains(f) ==> boot_reserved(boot_info, f as int)
                && f < frame_of(
                max_end(boot_info.memory_areas@, boot_info.memory_areas@.len() as int),
            ),
        forall|q: u64|
            HEAP_FIRST_PAGE <= q <= HEAP_LAST_PAGE + 1 + STACK_ALLOCATOR_PAGES
                ==> #[trigger] boot_info.image_flags(q as int) is None,
        boot_free_frames(boot_info) >= init_frames(boot_info, &active_table.mapper),
    ensures
        result.0.active_table.mapper.wf(),
        result.0.active_table.mapper.wf_with(&result.1),
        result.0.active_table.mapper.spec_clean(),
        result.0.active_table.mapper.spec_is_root(result.0.active_table.mapper.active_p4()),
        !boot_reserved(boot_info, result.0.active_table.mapper.active_p4() as int),
        result.1.last() == frame_of(
            max_end(boot_info.memory_areas@, boot_info.memory_areas@.len() as int),
        ),
        forall|q: u64|
            user_page(q) && !(HEAP_FIRST_PAGE <= q <= HEAP_LAST_PAGE)
                ==> #[trigger] result.0.active_table.mapper.spec_leaf(q) == if q
                == active_table.mapper.active_p4() {
                None
            } else {
                image_leaf(boot_info, q)
            },
        forall|q: u64|
            HEAP_FIRST_PAGE <= q <= HEAP_LAST_PAGE ==> {
                &&& (#[trigger] result.0.active_table.mapper.spec_leaf(q)) is Some
                &&& result.0.active_table.mapper.spec_leaf(q)->0.level == 1
                &&& result.0.active_table.mapper.spec_leaf(q)->0.flags == WRITABLE | PRESENT
                &&& !result.0.active_table.mapper.table_frames().contains(
                    result.0.active_table.mapper.spec_leaf(q)->0.frame,
                )
                &&& !result.1.free_frames().contains(
                    result.0.active_table.mapper.spec_leaf(q)->0.frame,
                )
            },
        forall|p: u64, q: u64|
            HEAP_FIRST_PAGE <= p < q <= HEAP_LAST_PAGE ==> (
            #[trigger] result.0.active_table.mapper.spec_leaf(p))->0.frame != (
            #[trigger] result.0.active_table.mapper.spec_leaf(q))->0.frame,
        forall|f: u64|
            #![trigger result.1.free_frames().contains(f)]
            #![trigger result.0.active_table.mapper.table_frames().contains(f)]
            result.1.free_frames().contains(f) || result.0.active_table.mapper.table_frames().contains(
                f,
            ) ==> !boot_reserved(boot_info, f as int) || active_table.mapper.table_frames().contains(
                f,
            ),
        forall|q: u64|
            HEAP_FIRST_PAGE <= q <= HEAP_LAST_PAGE ==> !boot_reserved(
                boot_info,
                (#[trigger] result.0.active_table.mapper.spec_leaf(q))->0.frame as int,
            ) || active_table.mapper.table_frames().contains(
                result.0.active_table.mapper.spec_leaf(q)->0.frame,
            ),
        result.0.stack_allocator.wf(),
        result.0.stack_allocator@ == PageIter::spec_range(
            (HEAP_LAST_PAGE + 1) as u64,
            (HEAP_LAST_PAGE + 1 + STACK_ALLOCATOR_PAGES) as u64,
        ),
        forall|i: int|
            0 <= i < result.0.stack_allocator@.len() ==> user_page(
                #[trigger] result.0.stack_allocator@[i],
            ) && result.0.active_table.mapper.spec_leaf(result.0.stack_allocator@[i]) is None,
        result.0.active_table.commands@ == active_table.commands@.push(
            TlbCommand::FlushPage((REMAP_TEMPORARY_PAGE * 4096) as u64),
        ).push(TlbCommand::FlushPage((REMAP_TEMPORARY_PAGE * 4096) as u64)).push(
            TlbCommand::FlushPage((REMAP_TEMPORARY_PAGE * 4096) as u64),
        ).push(TlbCommand::FlushAll).push(TlbCommand::FlushAll).push(
            TlbCommand::FlushPage((REMAP_TEMPORARY_PAGE * 4096) as u64),
        ).push(
            TlbCommand::LoadRoot((result.0.active_table.mapper.active_p4() * 4096) as u64),
        ).push(TlbCommand::FlushPage((active_table.mapper.active_p4() * 4096) as u64)) + flushes(
            HEAP_FIRST_PAGE,
            80,
        ),
{
    let ghost old_p4 = active_table.mapper.active_p4();
    let ghost old_tables = active_table.mapper.table_frames();
    proof {
        lemma_heap_pages();
    }
    let bounds = kernel_bounds(&boot_info.elf_sections);
    let (kernel_start, kernel_end) = bounds.unwrap();
    proof {
        lemma_kernel_end(boot_info.elf_sections@, boot_info.elf_sections@.len() as int);
    }
    let mut slot: Option<BitmapFrameAllocator> = None;
    frame_allocator_init(
        &mut slot,
        kernel_start,
        kernel_end,
        boot_info.start_address,
        boot_info.end_address,
        &boot_info.memory_areas,
    );
    let allocator = slot.unwrap();
    let ghost fresh = allocator;
    proof {
        fresh.lemma_last_covered();
        assert forall|f: u64| #[trigger]
            active_table.mapper.tables().contains_key(f) implies !fresh.free_frames().contains(f)
            && f < fresh.frame_limit() by {
            assert(active_table.mapper.table_frames().contains(f));
            assert(fresh.used(f));
        }
    }
    let (active, allocator) = remap_the_kernel(boot_info, active_table, allocator);
    let mut active_table = active;
    let mut allocator = allocator;
    let ghost remapped = active_table;
    let ghost allocator_remapped = allocator;

    let heap_start_page = Page::containing_address(HEAP_START);
    let heap_end_page = Page::containing_address(HEAP_START + HEAP_SIZE - 1);
    proof {
        assert forall|q: u64| heap_start_page@ <= q <= heap_end_page@ implies user_page(q) && (
        #[trigger] active_table.mapper.spec_leaf(q)) is None by {
            lemma_heap_page(q);
            assert(boot_info.image_flags(q as int) is None);
        }
        let tables = remapped.mapper.tables();
        let root = remapped.mapper.root()->0;
        let heap = PageIter::spec_range(HEAP_FIRST_PAGE, HEAP_LAST_PAGE);
        assert(heap[0] == HEAP_FIRST_PAGE);
        assert forall|i: int| 0 <= i < 80 implies same_table(#[trigger] heap[i], heap[0], 1) by {
            lemma_heap_shared(heap[i]);
        }
        lemma_needed_shared(tables, root, heap, 80);
        assert forall|level: int|
            1 <= level <= 3 && heap_table_shared(
                boot_info,
                old_p4,
                level,
            ) implies #[trigger] table_there(tables, root, HEAP_FIRST_PAGE, level) by {
            let page = choose|page: u64|
                boot_info.image_flags(page as int) is Some && page != old_p4
                    && #[trigger] same_table(page, HEAP_FIRST_PAGE, level);
            lemma_image_page(boot_info, page);
            assert(remapped.mapper.spec_leaf(page) == image_leaf(boot_info, page));
            lemma_mapped_there(tables, root, page, HEAP_FIRST_PAGE, level);
        }
    }
    map_range(&mut active_table, &mut allocator, heap_start_page, heap_end_page, EntryFlags::writable());

    let stack_allocator = {
        let stack_alloc_start = Page::from_number(heap_end_page.number() + 1);
        let stack_alloc_end = Page::from_number(
            heap_end_page.number() + 1 + STACK_ALLOCATOR_PAGES,
        );
        let stack_alloc_range = Page::range_inclusive(stack_alloc_start, stack_alloc_end);
        StackAllocator::new(stack_alloc_range)
    };
    proof {
        assert forall|q: u64|
            user_page(q) && !(HEAP_FIRST_PAGE <= q <= HEAP_LAST_PAGE)
                implies #[trigger] active_table.mapper.spec_leaf(q) == if q == old_p4 {
            None
        } else {
            image_leaf(boot_info, q)
        } by {
            assert(active_table.mapper.spec_leaf(q) == remapped.mapper.spec_leaf(q));
        }
        let new_p4 = remapped.mapper.active_p4();
        assert(fresh.free_frames().contains(new_p4));
        assert(!fresh.used(new_p4));
        let start = allocator_remapped.free_frames().union(remapped.mapper.table_frames());
        assert(start == fresh.free_frames().union(old_tables));
        assert forall|f: u64| start.contains(f) implies !boot_reserved(boot_info, f as int)
            || old_tables.contains(f) by {
            if fresh.free_frames().contains(f) {
                assert(!fresh.used(f));
            }
        }
        assert forall|f: u64|
            #![trigger allocator.free_frames().contains(f)]
            #![trigger active_table.mapper.table_frames().contains(f)]
            allocator.free_frames().contains(f) || active_table.mapper.table_frames().contains(
                f,
            ) implies !boot_reserved(boot_info, f as int) || old_tables.contains(f) by {
            assert(start.contains(f));
        }
        assert forall|q: u64| HEAP_FIRST_PAGE <= q <= HEAP_LAST_PAGE implies !boot_reserved(
            boot_info,
            (#[trigger] active_table.mapper.spec_leaf(q))->0.frame as int,
        ) || old_tables.contains(active_table.mapper.spec_leaf(q)->0.frame) by {
            assert(start.contains(active_table.mapper.spec_leaf(q)->0.frame));
        }
        assert forall|i: int| 0 <= i < stack_allocator@.len() implies user_page(
            #[trigger] stack_allocator@[i],
        ) && active_table.mapper.spec_leaf(stack_allocator@[i]) is None by {
            let q = stack_allocator@[i];
            assert(q == HEAP_LAST_PAGE + 1 + i);
            lemma_heap_page(q);
            assert(user_page(q));
            assert(active_table.mapper.spec_leaf(q) == remapped.mapper.spec_leaf(q));
            assert(boot_info.image_flags(q as int) is None);
        }
    }
    (MemoryController { active_table, stack_allocator }, allocator)
}

/// The highest end of the loaded sections is the end of one of them.
pub proof fn lemma_kernel_end(sections: Seq<ElfSection>, n: int)
    requires
        0 <= n <= sections.len(),
        forall|i: int|
            0 <= i < sections.len() && (#[trigger] sections[i]).spec_is_allocated() ==> sections[i].addr
                + sections[i].size < MAX_MEM_SIZE,
    ensures
        kernel_end_of(sections, n) matches Some(end) ==> end < MAX_MEM_SIZE,
        kernel_end_of(sections, n) is Some <==> kernel_start_of(sections, n) is Some,
    decreases n,
{
    if n > 0 {
        lemma_kernel_end(sections, n - 1);
    }
}

/// A page of the heap can be mapped, and lies above every frame of the first 4 GiB.
pub proof fn lemma_heap_page(page: u64)
    by (bit_vector)
    requires
        HEAP_FIRST_PAGE <= page <= HEAP_LAST_PAGE + 1 + STACK_ALLOCATOR_PAGES,
    ensures
        page < 0x8_0000_0000,
        (page >> 27) & 0o777 != 511,
{
}

} // verus!
