use vstd::prelude::*;
use crate::memory::bitmap_frame_allocator::areas_fit;
use crate::memory::bitmap_frame_allocator::BitmapFrameAllocator;
use crate::memory::bitmap_frame_allocator::frame_of;
use crate::memory::bitmap_frame_allocator::max_end;
use crate::memory::bitmap_frame_allocator::MAX_MEM_SIZE;
use crate::memory::bitmap_frame_allocator::NUM_OF_FRAMES;
use crate::memory::bitmap_frame_allocator::unreserved_below;
use crate::memory::boot::BootInformation;
use crate::memory::boot::ElfSection;
use crate::memory::boot::flags_in_sections;
use crate::memory::boot::in_section;
use crate::memory::boot::in_section_at;
use crate::memory::boot::lemma_flags_in_sections;
use crate::memory::boot::MemoryArea;
use crate::memory::boot::pages_in_sections;
use crate::memory::boot::pages_of_sections;
use crate::memory::boot::section_first;
use crate::memory::boot::section_last;
use crate::memory::boot::VGA_BUFFER_FRAME;
use crate::memory::boot_free_frames;
use crate::memory::boot_ok;
use crate::memory::boot_reserved;
use crate::memory::heap_frames;
use crate::memory::paging::guard_tables;
use crate::memory::paging::image_shares;
use crate::memory::heap_table_shared;
use crate::memory::paging::tree::same_table;
use crate::memory::init_frames;
use crate::memory::paging::ActivePageTable;
use crate::memory::bitmap_frame_allocator::in_gap;
use crate::memory::paging::entry::PRESENT;
use crate::memory::paging::entry::word_set;
use crate::memory::paging::entry::WRITABLE;
use crate::memory::paging::lemma_image_page;
use crate::memory::paging::lemma_image_run;
use crate::memory::paging::map_kernel_image;
use crate::memory::paging::mapper::Mapper;
use crate::memory::paging::need::lemma_needed_under_new_root;
use crate::memory::paging::lemma_lower_half_page;
use crate::memory::paging::REMAP_TEMPORARY_PAGE;
use crate::memory::paging::tree::user_page;
use crate::memory::paging::image_frames;
use crate::memory::paging::need::lemma_needed_at_most;
use crate::memory::Frame;
use crate::memory::heap_allocator::HEAP_FIRST_PAGE;
use crate::memory::heap_allocator::HEAP_LAST_PAGE;
use crate::memory::kernel_bounds;
use crate::memory::kernel_end_of;
use crate::memory::kernel_start_of;
use crate::memory::lemma_kernel_end;
use crate::memory::STACK_ALLOCATOR_PAGES;

verus! {

/// The number of the last page that is set aside for stacks.
pub const STACK_LAST_PAGE: u64 = 0x4_00b4;

/// What `init` asks of what the boot loader hands over and of the frame `p4` of the active
/// root table, where that table is the only one yet: the record is as `boot_ok` says; the
/// root table lies in the kernel's image, in a frame of the usable memory that is
/// reserved; the image keeps clear of the pages of the heap and of the stacks; and as
/// many frames are free as the new tables of the image, the three tables on the way to
/// the temporary page and the heap take, less the frames that are free again when the
/// heap is mapped: that of the old root table, and those of the new tables that held
/// nothing but the page of the old root table.
pub open spec fn init_ok(boot_info: &BootInformation, p4: u64) -> bool {
    &&& boot_ok(boot_info)
    &&& boot_info.image_flags(p4 as int) is Some
    &&& boot_reserved(boot_info, p4 as int)
    &&& p4 < frame_of(max_end(boot_info.memory_areas@, boot_info.memory_areas@.len() as int))
    &&& forall|q: u64|
        HEAP_FIRST_PAGE <= q <= HEAP_LAST_PAGE + 1 + STACK_ALLOCATOR_PAGES
            ==> #[trigger] boot_info.image_flags(q as int) is None
    &&& boot_free_frames(boot_info) >= image_frames(boot_info) + 3 + heap_frames(boot_info, p4)
        - 1 - guard_tables(boot_info, p4)
}

/// The pages of the loaded sections are as many as `pages_in_sections` counts.
pub proof fn lemma_section_count(boot_info: &BootInformation, n: int)
    requires
        boot_info.image_ok(),
        0 <= n <= boot_info.elf_sections@.len(),
    ensures
        pages_of_sections(boot_info.elf_sections@, n).len() == pages_in_sections(
            boot_info.elf_sections@,
            n,
        ),
    decreases n,
{
    if n > 0 {
        lemma_section_count(boot_info, n - 1);
        assert(boot_info.elf_sections@[n - 1].spec_is_allocated()
            ==> boot_info.elf_sections@[n - 1].addr + boot_info.elf_sections@[n - 1].size
            <= 0x8000_0000_0000);
    }
}

/// With a record and a root table that are as `init_ok` says, the active table as it is
/// made for that root table meets all that `init` asks.
pub proof fn lemma_init_ok(boot_info: &BootInformation, active_table: &ActivePageTable)
    requires
        init_ok(boot_info, active_table.mapper.active_p4()),
        active_table.mapper.wf(),
        active_table.mapper.table_frames() == Set::<u64>::empty().insert(
            active_table.mapper.active_p4(),
        ),
        forall|page: u64|
            user_page(page) ==> #[trigger] active_table.mapper.spec_leaf(page) is None,
    ensures
        boot_ok(boot_info),
        active_table.mapper.spec_leaf(REMAP_TEMPORARY_PAGE) is None,
        boot_info.image_flags(active_table.mapper.active_p4() as int) is Some,
        forall|f: u64| #[trigger]
            active_table.mapper.table_frames().contains(f) ==> boot_reserved(boot_info, f as int)
                && f < frame_of(
                max_end(boot_info.memory_areas@, boot_info.memory_areas@.len() as int),
            ),
        forall|q: u64|
            HEAP_FIRST_PAGE <= q <= HEAP_LAST_PAGE + 1 + STACK_ALLOCATOR_PAGES
                ==> #[trigger] boot_info.image_flags(q as int) is None,
        boot_free_frames(boot_info) >= init_frames(boot_info, &active_table.mapper),
{
    lemma_lower_half_page(REMAP_TEMPORARY_PAGE);
}

/// The loaded section `section` can be mapped: it starts at the start of a page and ends
/// in the first 4 GiB.
pub open spec fn section_fits(section: ElfSection) -> bool {
    section.spec_is_allocated() ==> section.addr % 4096 == 0 && section.addr + section.size
        < MAX_MEM_SIZE
}

/// Whether the usable memory areas can be taken into the bitmap.
pub fn areas_check(areas: &Vec<MemoryArea>) -> (ok: bool)
    ensures
        ok == areas_fit(areas@),
{
    let mut ok = areas.len() > 0;
    let mut i: usize = 0;
    while i < areas.len()
        invariant
            i <= areas@.len(),
            ok == (areas@.len() > 0 && (forall|j: int|
                0 <= j < i ==> (#[trigger] areas@[j]).base_addr + areas@[j].length < MAX_MEM_SIZE)
                && (forall|j: int| 1 <= j < i ==> (#[trigger] areas@[j]).base_addr >= 1)),
        decreases areas@.len() - i,
    {
        let area = &areas[i];
        let fits = area.base_addr < MAX_MEM_SIZE && area.length < MAX_MEM_SIZE && area.base_addr
            + area.length < MAX_MEM_SIZE;
        if !fits || (i >= 1 && area.base_addr < 1) {
            ok = false;
        }
        i = i + 1;
    }
    ok
}

/// Whether every loaded section can be mapped.
pub fn sections_check(sections: &Vec<ElfSection>) -> (ok: bool)
    ensures
        ok == (forall|j: int| 0 <= j < sections@.len() ==> section_fits(#[trigger] sections@[j])),
{
    let mut ok = true;
    let mut i: usize = 0;
    while i < sections.len()
        invariant
            i <= sections@.len(),
            ok == (forall|j: int| 0 <= j < i ==> section_fits(#[trigger] sections@[j])),
        decreases sections@.len() - i,
    {
        let section = &sections[i];
        if section.is_allocated() {
            let fits = section.addr % 4096 == 0 && section.addr
                < MAX_MEM_SIZE && section.size < MAX_MEM_SIZE && section.addr + section.size
                < MAX_MEM_SIZE;
            if !fits {
                ok = false;
            }
        }
        i = i + 1;
    }
    ok
}

/// Whether no loaded section holds a part of a page from `lo` to `hi`, both included.
pub fn range_free(sections: &Vec<ElfSection>, lo: u64, hi: u64) -> (free: bool)
    requires
        forall|j: int| 0 <= j < sections@.len() ==> section_fits(#[trigger] sections@[j]),
        lo <= hi,
    ensures
        free == (forall|j: int, page: int|
            0 <= j < sections@.len() && lo <= page <= hi ==> !#[trigger] in_section_at(
                sections@,
                j,
                page,
            )),
{
    let mut free = true;
    let mut i: usize = 0;
    while i < sections.len()
        invariant
            i <= sections@.len(),
            lo <= hi,
            forall|j: int| 0 <= j < sections@.len() ==> section_fits(#[trigger] sections@[j]),
            free == (forall|j: int, page: int|
                0 <= j < i && lo <= page <= hi ==> !#[trigger] in_section_at(sections@, j, page)),
        decreases sections@.len() - i,
    {
        let section = &sections[i];
        if section.is_allocated() && section.size >= 1 {
            let first = section.addr / 4096;
            let last = (section.addr + section.size - 1) / 4096;
            if !(last < lo || hi < first) {
                proof {
                    let page = if first >= lo {
                        first as int
                    } else {
                        lo as int
                    };
                    assert(in_section_at(sections@, i as int, page));
                }
                free = false;
            }
        }
        i = i + 1;
    }
    free
}

/// Whether a loaded section holds a part of the page `page`.
pub fn page_in_sections(sections: &Vec<ElfSection>, page: u64) -> (yes: bool)
    requires
        forall|j: int| 0 <= j < sections@.len() ==> section_fits(#[trigger] sections@[j]),
    ensures
        yes == flags_in_sections(sections@, sections@.len() as int, page as int) is Some,
{
    let free = range_free(sections, page, page);
    proof {
        lemma_flags_in_sections(sections@, sections@.len() as int, page as int);
    }
    !free
}

/// Whether no page holds a part of two loaded sections.
pub fn sections_apart(sections: &Vec<ElfSection>) -> (apart: bool)
    requires
        forall|j: int| 0 <= j < sections@.len() ==> section_fits(#[trigger] sections@[j]),
    ensures
        apart == (forall|i: int, j: int, page: int|
            0 <= i < j < sections@.len() && #[trigger] in_section_at(sections@, i, page)
                ==> !#[trigger] in_section_at(sections@, j, page)),
{
    let mut apart = true;
    let mut later: usize = 0;
    while later < sections.len()
        invariant
            later <= sections@.len(),
            forall|j: int| 0 <= j < sections@.len() ==> section_fits(#[trigger] sections@[j]),
            apart == (forall|i: int, j: int, page: int|
                0 <= i < j < later && #[trigger] in_section_at(sections@, i, page)
                    ==> !#[trigger] in_section_at(sections@, j, page)),
        decreases sections@.len() - later,
    {
        let section = &sections[later];
        if section.is_allocated() && section.size >= 1 {
            let first = section.addr / 4096;
            let last = (section.addr + section.size - 1) / 4096;
            let mut earlier: usize = 0;
            let ghost apart_before = apart;
            let mut clear = true;
            while earlier < later
                invariant
                    earlier <= later < sections@.len(),
                    forall|j: int|
                        0 <= j < sections@.len() ==> section_fits(#[trigger] sections@[j]),
                    first == section_first(sections@[later as int]),
                    last == section_last(sections@[later as int]),
                    sections@[later as int].spec_is_allocated(),
                    sections@[later as int].size >= 1,
                    first <= last,
                    clear == (forall|i: int, page: int|
                        0 <= i < earlier && #[trigger] in_section_at(sections@, i, page)
                            ==> !in_section_at(sections@, later as int, page)),
                decreases later - earlier,
            {
                let other = &sections[earlier];
                if other.is_allocated() && other.size >= 1 {
                    let other_first = other.addr / 4096;
                    let other_last = (other.addr + other.size - 1) / 4096;
                    if !(other_last < first || last < other_first) {
                        proof {
                            let page = if first >= other_first {
                                first as int
                            } else {
                                other_first as int
                            };
                            assert(in_section_at(sections@, earlier as int, page));
                            assert(in_section_at(sections@, later as int, page));
                        }
                        clear = false;
                    }
                }
                earlier = earlier + 1;
            }
            if !clear {
                apart = false;
            }
        }
        later = later + 1;
    }
    apart
}

/// How many pages the loaded sections take up; none where they take up more than the
/// bitmap covers.
pub fn count_section_pages(sections: &Vec<ElfSection>) -> (pages: Option<u64>)
    requires
        forall|j: int| 0 <= j < sections@.len() ==> section_fits(#[trigger] sections@[j]),
    ensures
        match pages {
            Some(n) => n == pages_in_sections(sections@, sections@.len() as int) && n
                <= NUM_OF_FRAMES,
            None => pages_in_sections(sections@, sections@.len() as int) > NUM_OF_FRAMES,
        },
{
    let mut pages: u64 = 0;
    let mut over = false;
    let mut i: usize = 0;
    while i < sections.len()
        invariant
            i <= sections@.len(),
            forall|j: int| 0 <= j < sections@.len() ==> section_fits(#[trigger] sections@[j]),
            !over ==> pages == pages_in_sections(sections@, i as int) && pages <= NUM_OF_FRAMES,
            over ==> pages_in_sections(sections@, i as int) > NUM_OF_FRAMES,
        decreases sections@.len() - i,
    {
        let section = &sections[i];
        if section.is_allocated() && section.size >= 1 {
            let first = section.addr / 4096;
            let last = (section.addr + section.size - 1) / 4096;
            if !over {
                pages = pages + (last - first + 1);
                if pages > NUM_OF_FRAMES {
                    over = true;
                }
            }
        }
        i = i + 1;
    }
    if over {
        None
    } else {
        Some(pages)
    }
}

/// Whether `init` can set the memory up from what the boot loader handed over, with the
/// active root table in `p4_frame`. The tables of the image are counted in a memory of its
/// own, so that an image is turned down whose pages, taken three times, are more than
/// that memory has free frames.
pub fn check_boot(boot_info: &BootInformation, p4_frame: &Frame) -> (ok: bool)
    ensures
        ok == (init_ok(boot_info, p4_frame@) && 3 * boot_info.image_pages() <= SCRATCH_FRAMES),
{
    let sections = &boot_info.elf_sections;
    let ghost all = sections@.len() as int;
    if !areas_check(&boot_info.memory_areas) || !sections_check(sections) {
        return false;
    }
    if boot_info.end_address < 1 || boot_info.end_address >= MAX_MEM_SIZE {
        return false;
    }
    proof {
        lemma_kernel_end(sections@, all);
    }
    let (kernel_start, kernel_end) = match kernel_bounds(sections) {
        Some(bounds) => bounds,
        None => {
            return false;
        },
    };
    // the pages of the record; there is none where the record ends before it starts
    let record_first = boot_info.start_address / 4096;
    let record_last = (boot_info.end_address - 1) / 4096;
    let record = record_first <= record_last;
    let stack_last = HEAP_LAST_PAGE + 1 + STACK_ALLOCATOR_PAGES;
    if !sections_apart(sections) || !range_free(sections, VGA_BUFFER_FRAME, VGA_BUFFER_FRAME) {
        return false;
    }
    if record {
        let clear = range_free(sections, record_first, record_last);
        proof {
            if !clear {
                let (j, page) = choose|j: int, page: int|
                    0 <= j < all && record_first <= page <= record_last && in_section_at(
                        sections@,
                        j,
                        page,
                    );
                assert(boot_info.in_record(page));
            }
        }
        if !clear {
            return false;
        }
        if record_first <= VGA_BUFFER_FRAME && VGA_BUFFER_FRAME <= record_last {
            return false;
        }
    }
    proof {
        assert(boot_ok(boot_info));
    }
    // the image keeps clear of the heap and of the stacks
    let clear = range_free(sections, HEAP_FIRST_PAGE, stack_last);
    let record_clear = !record || record_last < HEAP_FIRST_PAGE || stack_last < record_first;
    proof {
        if clear && record_clear {
            assert forall|q: u64| HEAP_FIRST_PAGE <= q <= stack_last implies #[trigger] boot_info.image_flags(
                q as int,
            ) is None by {
                lemma_flags_in_sections(sections@, all, q as int);
            }
        } else if !clear {
            let (j, page) = choose|j: int, page: int|
                0 <= j < all && HEAP_FIRST_PAGE <= page <= stack_last && in_section_at(
                    sections@,
                    j,
                    page,
                );
            lemma_flags_in_sections(sections@, all, page);
            assert(boot_info.image_flags(page as u64 as int) is Some);
        } else {
            let page = if record_first >= HEAP_FIRST_PAGE {
                record_first
            } else {
                HEAP_FIRST_PAGE
            };
            assert(boot_info.in_record(page as int));
            assert(boot_info.image_flags(page as int) is Some);
        }
    }
    if !clear || !record_clear {
        return false;
    }
    // the root table lies in the image
    let p4 = p4_frame.number();
    let in_image = page_in_sections(sections, p4) || p4 == VGA_BUFFER_FRAME || (record
        && record_first <= p4 && p4 <= record_last);
    if !in_image {
        return false;
    }
    // the frame allocator as it will be
    let allocator = BitmapFrameAllocator::new(
        kernel_start,
        kernel_end,
        boot_info.start_address,
        boot_info.end_address,
        &boot_info.memory_areas,
    );
    proof {
        allocator.lemma_last_covered();
        lemma_unreserved_at_most(
            boot_info.memory_areas@,
            kernel_start,
            kernel_end,
            boot_info.start_address,
            boot_info.end_address,
            allocator.last() as int,
        );
    }
    if p4 >= allocator.last_frame() || !allocator.frame_is_used(p4) {
        return false;
    }
    let section_pages = match count_section_pages(sections) {
        Some(pages) => pages,
        None => {
            return false;
        },
    };
    let record_pages = if record {
        record_last - record_first + 1
    } else {
        0
    };
    if 3 * (section_pages + 1 + record_pages) > SCRATCH_FRAMES {
        return false;
    }
    let image = count_image_frames(boot_info);
    // the tables on the way to the heap that the image has on its ways too
    let shared_3 = image_holds_beside(boot_info, 0, 0x7ff_ffff, p4);
    let shared_2 = image_holds_beside(boot_info, HEAP_FIRST_PAGE, 0x7_ffff, p4);
    let shared_1 = image_holds_beside(boot_info, HEAP_FIRST_PAGE, 0x4_01ff, p4);
    proof {
        lemma_heap_tables(boot_info, p4, 3);
        lemma_heap_tables(boot_info, p4, 2);
        lemma_heap_tables(boot_info, p4, 1);
        lemma_section_count(boot_info, all);
        lemma_needed_at_most(
            Map::empty(),
            0,
            boot_info.image_run(),
            boot_info.image_run().len() as int,
        );
    }
    let tables_3: u64 = if shared_3 {
        0
    } else {
        1
    };
    let tables_2: u64 = if shared_2 {
        0
    } else {
        1
    };
    let tables_1: u64 = if shared_1 {
        0
    } else {
        1
    };
    let heap = HEAP_LAST_PAGE - HEAP_FIRST_PAGE + 1 + tables_3 + tables_2 + tables_1;
    // the tables that go with the page of the old root table
    let beside_1 = image_holds_beside(boot_info, p4 & !0x1ff, p4 | 0x1ff, p4);
    let beside_2 = image_holds_beside(boot_info, p4 & !0x3_ffff, p4 | 0x3_ffff, p4);
    let beside_3 = image_holds_beside(boot_info, p4 & !0x7ff_ffff, p4 | 0x7ff_ffff, p4);
    let gone: u64 = if beside_1 {
        0
    } else if beside_2 {
        1
    } else if beside_3 {
        2
    } else {
        3
    };
    proof {
        lemma_image_page(boot_info, p4);
        lemma_guard_shares(boot_info, p4, 1);
        lemma_guard_shares(boot_info, p4, 2);
        lemma_guard_shares(boot_info, p4, 3);
        assert(beside_guard(p4, 1).0 == p4 & !0x1ff && beside_guard(p4, 1).1 == p4 | 0x1ff);
        assert(beside_guard(p4, 2).0 == p4 & !0x3_ffff && beside_guard(p4, 2).1 == p4
            | 0x3_ffff);
        assert(beside_guard(p4, 3).0 == p4 & !0x7ff_ffff && beside_guard(p4, 3).1 == p4
            | 0x7ff_ffff);
        assert(beside_1 == image_shares(boot_info, p4, p4, 1));
        assert(beside_2 == image_shares(boot_info, p4, p4, 2));
        assert(beside_3 == image_shares(boot_info, p4, p4, 3));
        assert(gone == guard_tables(boot_info, p4));
    }
    proof {
        assert(beside_heap(3).0 == 0 && beside_heap(3).1 == 0x7ff_ffff);
        assert(beside_heap(2).0 == HEAP_FIRST_PAGE && beside_heap(2).1 == 0x7_ffff);
        assert(beside_heap(1).0 == HEAP_FIRST_PAGE && beside_heap(1).1 == 0x4_01ff);
    }
    allocator.available_frames() >= image + 3 + heap - 1 - gone
}

/// The first and the last of the pages that have the same table of level `level` on their
/// way as the page `guard`.
pub open spec fn beside_guard(guard: u64, level: int) -> (u64, u64) {
    if level == 3 {
        (guard & !0x7ff_ffff, guard | 0x7ff_ffff)
    } else if level == 2 {
        (guard & !0x3_ffff, guard | 0x3_ffff)
    } else {
        (guard & !0x1ff, guard | 0x1ff)
    }
}

/// Which pages of the lower half share a table with the page `guard`.
pub proof fn lemma_beside_guard(guard: u64, page: u64)
    by (bit_vector)
    requires
        guard < 0x8_0000_0000,
        page < 0x8_0000_0000,
    ensures
        ((page >> 27) & 0o777 == (guard >> 27) & 0o777) == (guard & !0x7ff_ffff <= page && page
            <= guard | 0x7ff_ffff),
        ((page >> 27) & 0o777 == (guard >> 27) & 0o777 && (page >> 18) & 0o777 == (guard >> 18)
            & 0o777) == (guard & !0x3_ffff <= page && page <= guard | 0x3_ffff),
        ((page >> 27) & 0o777 == (guard >> 27) & 0o777 && (page >> 18) & 0o777 == (guard >> 18)
            & 0o777 && (page >> 9) & 0o777 == (guard >> 9) & 0o777) == (guard & !0x1ff <= page
            && page <= guard | 0x1ff),
{
}

/// A page of the image shares a table with the page `guard` where it lies in the range of
/// the pages that do.
pub proof fn lemma_guard_shares(boot_info: &BootInformation, guard: u64, level: int)
    requires
        boot_info.image_ok(),
        guard < 0x8_0000_0000,
        1 <= level <= 3,
    ensures
        image_shares(boot_info, guard, guard, level) == (exists|page: u64| #[trigger]
            held_beside(
                boot_info,
                beside_guard(guard, level).0,
                beside_guard(guard, level).1,
                guard,
                page,
            )),
{
    let lo = beside_guard(guard, level).0;
    let hi = beside_guard(guard, level).1;
    if image_shares(boot_info, guard, guard, level) {
        let page = choose|page: u64|
            boot_info.image_flags(page as int) is Some && page != guard && #[trigger] same_table(
                page,
                guard,
                level,
            );
        lemma_image_page(boot_info, page);
        lemma_beside_guard(guard, page);
        assert(held_beside(boot_info, lo, hi, guard, page));
    }
    if exists|page: u64| #[trigger] held_beside(boot_info, lo, hi, guard, page) {
        let page = choose|page: u64| #[trigger] held_beside(boot_info, lo, hi, guard, page);
        lemma_image_page(boot_info, page);
        lemma_beside_guard(guard, page);
        assert(same_table(page, guard, level));
    }
}

/// The first and the last of the pages that have the same table of level `level` on their
/// way as the pages of the heap.
pub open spec fn beside_heap(level: int) -> (u64, u64) {
    if level == 3 {
        (0, 0x7ff_ffff)
    } else if level == 2 {
        (HEAP_FIRST_PAGE, 0x7_ffff)
    } else {
        (HEAP_FIRST_PAGE, 0x4_01ff)
    }
}

/// Which pages of the lower half share a table with the pages of the heap.
pub proof fn lemma_beside_heap(page: u64)
    by (bit_vector)
    requires
        page < 0x8_0000_0000,
    ensures
        ((page >> 27) & 0o777 == (0x4_0000u64 >> 27) & 0o777) == (page <= 0x7ff_ffff),
        ((page >> 27) & 0o777 == (0x4_0000u64 >> 27) & 0o777 && (page >> 18) & 0o777 == (0x4_0000u64
            >> 18) & 0o777) == (0x4_0000 <= page && page <= 0x7_ffff),
        ((page >> 27) & 0o777 == (0x4_0000u64 >> 27) & 0o777 && (page >> 18) & 0o777 == (0x4_0000u64
            >> 18) & 0o777 && (page >> 9) & 0o777 == (0x4_0000u64 >> 9) & 0o777) == (0x4_0000
            <= page && page <= 0x4_01ff),
{
}

/// A page of the image shares a table with the pages of the heap where it lies in the
/// range of the pages that do.
pub proof fn lemma_heap_tables(boot_info: &BootInformation, guard: u64, level: int)
    requires
        boot_info.image_ok(),
        1 <= level <= 3,
    ensures
        heap_table_shared(boot_info, guard, level) == (exists|page: u64| #[trigger]
            held_beside(boot_info, beside_heap(level).0, beside_heap(level).1, guard, page)),
{
    let lo = beside_heap(level).0;
    let hi = beside_heap(level).1;
    if heap_table_shared(boot_info, guard, level) {
        let page = choose|page: u64|
            boot_info.image_flags(page as int) is Some && page != guard && #[trigger] same_table(
                page,
                HEAP_FIRST_PAGE,
                level,
            );
        lemma_image_page(boot_info, page);
        lemma_beside_heap(page);
        assert(held_beside(boot_info, lo, hi, guard, page));
    }
    if exists|page: u64| #[trigger] held_beside(boot_info, lo, hi, guard, page) {
        let page = choose|page: u64| #[trigger] held_beside(boot_info, lo, hi, guard, page);
        lemma_image_page(boot_info, page);
        lemma_beside_heap(page);
        assert(same_table(page, HEAP_FIRST_PAGE, level));
    }
}

/// Of the frames below `n` at most `n` are not reserved.
pub proof fn lemma_unreserved_at_most(
    areas: Seq<MemoryArea>,
    kernel_start: u64,
    kernel_end: u64,
    multiboot_start: u64,
    multiboot_end: u64,
    n: int,
)
    requires
        0 <= n,
    ensures
        unreserved_below(areas, kernel_start, kernel_end, multiboot_start, multiboot_end, n) <= n,
    decreases n,
{
    if n > 0 {
        lemma_unreserved_at_most(
            areas,
            kernel_start,
            kernel_end,
            multiboot_start,
            multiboot_end,
            n - 1,
        );
    }
}

/// The size of the memory of its own in which `count_image_frames` makes tables, to count
/// them.
pub const SCRATCH_MEMORY: u64 = 0xffff_e000;

/// How many frames of that memory are free: all but the first, which holds the root table.
pub const SCRATCH_FRAMES: u64 = 0xf_fffd;

/// The memory in which `count_image_frames` makes tables.
pub open spec fn scratch_areas() -> Seq<MemoryArea> {
    seq![MemoryArea { base_addr: 0, length: SCRATCH_MEMORY }]
}

/// Of the frames of that memory only the first is reserved, and the one behind its end.
pub proof fn lemma_scratch(n: int)
    requires
        1 <= n <= SCRATCH_FRAMES + 1,
    ensures
        unreserved_below(scratch_areas(), 0, 0, 0, 0, n) == n - 1,
    decreases n,
{
    reveal_with_fuel(max_end, 3);
    if n > 1 {
        lemma_scratch(n - 1);
        assert(!in_gap(scratch_areas(), 1, n - 1));
    } else {
        assert(unreserved_below(scratch_areas(), 0, 0, 0, 0, 0) == 0);
    }
}

/// How many frames the tables take that map the kernel's image and nothing else. They are
/// counted as they are made, in a memory of its own, which is big enough for an image whose
/// pages, taken three times, are no more than its free frames.
pub fn count_image_frames(boot_info: &BootInformation) -> (count: u64)
    requires
        boot_info.image_ok(),
        3 * boot_info.image_pages() <= SCRATCH_FRAMES,
    ensures
        count == image_frames(boot_info),
{
    let areas: Vec<MemoryArea> = vec![MemoryArea { base_addr: 0, length: SCRATCH_MEMORY }];
    proof {
        assert(areas@ =~= scratch_areas());
        reveal_with_fuel(max_end, 3);
    }
    let mut allocator = BitmapFrameAllocator::new(0, 0, 0, 0, &areas);
    let mut mapper = Mapper::new(Frame::from_number(0));
    let room = allocator.available_frames();
    proof {
        let run = boot_info.image_run();
        lemma_scratch(SCRATCH_FRAMES + 1);
        allocator.lemma_last_covered();
        assert(allocator.used(0));
        lemma_image_run(boot_info);
        lemma_section_count(boot_info, boot_info.elf_sections@.len() as int);
        lemma_needed_at_most(mapper.tables(), 0, run, run.len() as int);
        lemma_needed_under_new_root(
            mapper.tables(),
            0,
            word_set(0, 0, PRESENT | WRITABLE),
            run,
        );
        assert forall|q: u64|
            boot_info.image_flags(q as int) is Some implies #[trigger] mapper.spec_leaf(q)
            is None by {
            lemma_image_page(boot_info, q);
        }
    }
    map_kernel_image(&mut mapper, &mut allocator, boot_info);
    1 + (room - allocator.available_frames())
}

/// The page `page` lies between `lo` and `hi`, both included, is not `except`, and the
/// kernel's image holds it.
pub open spec fn held_beside(
    boot_info: &BootInformation,
    lo: u64,
    hi: u64,
    except: u64,
    page: u64,
) -> bool {
    lo <= page <= hi && page != except && boot_info.image_flags(page as int) is Some
}

/// Whether a page other than `except` lies both between `first` and `last` and between
/// `lo` and `hi`, the ends included.
fn meet_beside(first: u64, last: u64, lo: u64, hi: u64, except: u64) -> (met: bool)
    ensures
        met == (exists|page: u64|
            first <= page <= last && lo <= page <= hi && #[trigger] differ(page, except)),
{
    let start = if first >= lo {
        first
    } else {
        lo
    };
    let end = if last <= hi {
        last
    } else {
        hi
    };
    let met = start <= end && !(start == end && start == except);
    proof {
        if met {
            let page = if start != except {
                start
            } else {
                end
            };
            assert(first <= page <= last && lo <= page <= hi && differ(page, except));
        }
    }
    met
}

/// The numbers `a` and `b` differ.
pub open spec fn differ(a: u64, b: u64) -> bool {
    a != b
}

/// Whether the kernel's image holds a page from `lo` to `hi`, both included, other than
/// the page `except`.
pub fn image_holds_beside(boot_info: &BootInformation, lo: u64, hi: u64, except: u64) -> (held:
    bool)
    requires
        boot_info.image_ok(),
    ensures
        held == (exists|page: u64| #[trigger] held_beside(boot_info, lo, hi, except, page)),
{
    let sections = &boot_info.elf_sections;
    let ghost all = sections@.len() as int;
    let mut held = false;
    let mut i: usize = 0;
    while i < sections.len()
        invariant
            i <= sections@.len(),
            boot_info.image_ok(),
            sections@ == boot_info.elf_sections@,
            held == (exists|j: int, page: u64|
                0 <= j < i && lo <= page <= hi && differ(page, except) && #[trigger] in_section_at(
                    sections@,
                    j,
                    page as int,
                )),
        decreases sections@.len() - i,
    {
        let section = &sections[i];
        let ghost before = held;
        if section.is_allocated() && section.size >= 1 {
            let first = section.addr / 4096;
            let last = (section.addr + section.size - 1) / 4096;
            let here = meet_beside(first, last, lo, hi, except);
            proof {
                if here {
                    let page = choose|page: u64|
                        first <= page <= last && lo <= page <= hi && #[trigger] differ(
                            page,
                            except,
                        );
                    assert(in_section_at(sections@, i as int, page as int));
                } else {
                    assert forall|page: u64|
                        lo <= page <= hi && differ(page, except) implies !#[trigger] in_section_at(
                        sections@,
                        i as int,
                        page as int,
                    ) by {
                        if in_section_at(sections@, i as int, page as int) {
                            assert(first <= page <= last && lo <= page <= hi && differ(
                                page,
                                except,
                            ));
                        }
                    }
                }
            }
            if here {
                held = true;
            }
        }
        proof {
            let next = i + 1;
            if held {
                if before {
                    let (j, page) = choose|j: int, page: u64|
                        0 <= j < i && lo <= page <= hi && differ(page, except)
                            && #[trigger] in_section_at(sections@, j, page as int);
                    assert(0 <= j < next && in_section_at(sections@, j, page as int));
                }
            } else {
                assert forall|j: int, page: u64|
                    0 <= j < next && lo <= page <= hi && differ(
                        page,
                        except,
                    ) implies !#[trigger] in_section_at(sections@, j, page as int) by {
                    if j < i {
                    }
                }
            }
        }
        i = i + 1;
    }
    let in_sections = held;
    let screen = lo <= VGA_BUFFER_FRAME && VGA_BUFFER_FRAME <= hi && VGA_BUFFER_FRAME != except;
    let record_first = boot_info.start_address / 4096;
    let record_last = (boot_info.end_address - 1) / 4096;
    let record = meet_beside(record_first, record_last, lo, hi, except);
    proof {
        if in_sections {
            let (j, page) = choose|j: int, page: u64|
                0 <= j < all && lo <= page <= hi && differ(page, except) && #[trigger] in_section_at(
                    sections@,
                    j,
                    page as int,
                );
            lemma_flags_in_sections(sections@, all, page as int);
            assert(held_beside(boot_info, lo, hi, except, page));
        } else if screen {
            assert(held_beside(boot_info, lo, hi, except, VGA_BUFFER_FRAME));
        } else if record {
            let page = choose|page: u64|
                record_first <= page <= record_last && lo <= page <= hi && #[trigger] differ(
                    page,
                    except,
                );
            assert(boot_info.in_record(page as int));
            assert(held_beside(boot_info, lo, hi, except, page));
        } else {
            assert forall|page: u64| !#[trigger] held_beside(
                boot_info,
                lo,
                hi,
                except,
                page,
            ) by {
                if held_beside(boot_info, lo, hi, except, page) {
                    lemma_flags_in_sections(sections@, all, page as int);
                    if flags_in_sections(sections@, all, page as int) is Some {
                        let j = choose|j: int|
                            0 <= j < all && in_section_at(sections@, j, page as int);
                        assert(differ(page, except));
                        assert(false);
                    } else if page == VGA_BUFFER_FRAME {
                        assert(false);
                    } else {
                        assert(boot_info.in_record(page as int));
                        assert(record_first <= page <= record_last && lo <= page <= hi && differ(
                            page,
                            except,
                        ));
                        assert(false);
                    }
                }
            }
        }
    }
    in_sections || screen || record
}

} // verus!
