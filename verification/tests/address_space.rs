use kernel::memory::bitmap_frame_allocator::BitmapFrameAllocator;
use kernel::memory::boot::BootInformation;
use kernel::memory::boot::ElfSection;
use kernel::memory::boot::MemoryArea;
use kernel::memory::boot_check::check_boot;
use kernel::memory::boot_check::count_image_frames;
use kernel::memory::boot_check::image_holds_beside;
use kernel::memory::boot::ELF_SECTION_ALLOCATED;
use kernel::memory::boot::ELF_SECTION_EXECUTABLE;
use kernel::memory::boot::ELF_SECTION_WRITABLE;
use kernel::memory::heap_allocator::HEAP_SIZE;
use kernel::memory::heap_allocator::HEAP_START;
use kernel::memory::init;
use kernel::memory::paging::entry::EntryFlags;
use kernel::memory::paging::entry::NO_EXECUTE;
use kernel::memory::paging::entry::PRESENT;
use kernel::memory::paging::entry::WRITABLE;
use kernel::memory::paging::mapper::Mapper;
use kernel::memory::paging::identity_map_range;
use kernel::memory::paging::map_kernel_image;
use kernel::memory::paging::remap_the_kernel;
use kernel::memory::paging::temporary_page::TemporaryPage;
use kernel::memory::paging::ActivePageTable;
use kernel::memory::paging::InactivePageTable;
use kernel::memory::paging::Page;
use kernel::memory::paging::TlbCommand;
use kernel::memory::stack_allocator::map_range;
use kernel::memory::stack_allocator::StackAllocator;
use kernel::memory::Frame;
use kernel::memory::FrameAllocator;

/// Memory of 0x8000 frames; the kernel in the frames 0x100 to 0x10f, the boot loader's
/// record in frame 0x300.
fn boot_information() -> BootInformation {
    BootInformation {
        start_address: 0x300000,
        end_address: 0x300800,
        memory_areas: vec![
            MemoryArea { base_addr: 0, length: 0x9FC00 },
            MemoryArea { base_addr: 0x100000, length: 0x7F00000 },
        ],
        elf_sections: vec![
            // not loaded
            ElfSection { addr: 0, size: 0x2000, flags: 0 },
            // code
            ElfSection {
                addr: 0x100000,
                size: 0x4000,
                flags: ELF_SECTION_ALLOCATED | ELF_SECTION_EXECUTABLE,
            },
            // constants
            ElfSection { addr: 0x104000, size: 0x1800, flags: ELF_SECTION_ALLOCATED },
            // variables, with the tables of the boot loader
            ElfSection {
                addr: 0x106000,
                size: 0xa000,
                flags: ELF_SECTION_ALLOCATED | ELF_SECTION_WRITABLE,
            },
        ],
    }
}

fn allocator() -> BitmapFrameAllocator {
    let boot_info = boot_information();
    BitmapFrameAllocator::new(0x100000, 0x110000, 0x300000, 0x300800, &boot_info.memory_areas)
}

/// The table that is active at boot: its root table lies among the kernel's variables.
fn active_table() -> ActivePageTable {
    ActivePageTable::new(Frame::containing_address(0x10a000))
}

#[test]
fn temporary_page_maps_and_unmaps() {
    let mut active = active_table();
    let mut allocator = allocator();
    let mut page = TemporaryPage::new(Page::from_number(0xcafebabe));
    assert_eq!(page.start_address(), 0xcafebabe000);
    let address = page.map(Frame::from_number(0x400), &mut active, &mut allocator);
    assert_eq!(address, 0xcafebabe000);
    assert_eq!(active.mapper.translate(0xcafebabe123), Some(0x400123));
    let leaf = active.mapper.leaf(Page::from_number(0xcafebabe)).unwrap();
    assert_eq!(leaf.flags, PRESENT | WRITABLE);
    page.unmap(&mut active, &mut allocator);
    assert!(active.mapper.translate(0xcafebabe123).is_none());
    // the tables on the way stay, and the frame is still the caller's
    assert!(allocator.frame_is_used(1));
    assert!(allocator.frame_is_used(2));
    assert!(allocator.frame_is_used(3));
    assert!(!allocator.frame_is_used(0x400));
    assert_eq!(
        active.take_commands(),
        vec![TlbCommand::FlushPage(0xcafebabe000), TlbCommand::FlushPage(0xcafebabe000)]
    );
    let shown = page.map_table_frame(Frame::from_number(0x401), &mut active, &mut allocator);
    assert_eq!(shown.number(), 0x401);
    assert_eq!(
        active.mapper.translate_page(Page::from_number(0xcafebabe)).unwrap().number(),
        0x401
    );
}

#[test]
fn new_inactive_table_is_empty_but_for_its_recursive_entry() {
    let mut active = active_table();
    let mut allocator = allocator();
    let mut page = TemporaryPage::new(Page::from_number(0xcafebabe));
    let frame = allocator.allocate_frame().unwrap();
    let _table = InactivePageTable::new(frame.clone(), &mut active, &mut page, &mut allocator);
    let root = active.mapper.table(&frame).unwrap();
    assert_eq!(root.entry_count(), 0);
    for i in 0..511 {
        assert!(root.index(i).is_unused());
    }
    assert_eq!(root.index(511).pointed_frame().unwrap(), frame);
    assert_eq!(root.index(511).flags().bits(), PRESENT | WRITABLE);
    assert!(active.mapper.translate_page(Page::from_number(0xcafebabe)).is_none());
}

#[test]
fn with_edits_the_inactive_table() {
    let mut active = active_table();
    let mut allocator = allocator();
    let mut page = TemporaryPage::new(Page::from_number(0xcafebabe));
    let seen = Page::containing_address(0x5000);
    active.mapper.map_to(seen, Frame::from_number(0x500), EntryFlags::writable(), &mut allocator).ignore();
    let frame = allocator.allocate_frame().unwrap();
    let table = InactivePageTable::new(frame.clone(), &mut active, &mut page, &mut allocator);
    active.take_commands();
    let (mut active, mut allocator) = active.with(
        &table,
        &mut page,
        allocator,
        |mut mapper: Mapper, mut allocator: BitmapFrameAllocator| {
            // the mapper works on the new table, in which nothing is mapped yet
            assert_eq!(mapper.root_frame().unwrap(), frame);
            assert!(mapper.translate_page(seen).is_none());
            mapper.map_to(seen, Frame::from_number(0x600), EntryFlags::empty(), &mut allocator).ignore();
            mapper.identity_map(Frame::from_number(0xb8), EntryFlags::writable(), &mut allocator).ignore();
            (mapper, allocator)
        },
    );
    // the active table is as it was
    assert_eq!(active.mapper.root_frame().unwrap().number(), 0x10a);
    assert_eq!(active.mapper.translate_page(seen).unwrap().number(), 0x500);
    assert!(active.mapper.translate(0xb8000).is_none());
    assert!(active.mapper.translate_page(Page::from_number(0xcafebabe)).is_none());
    assert_eq!(
        active.take_commands(),
        vec![
            TlbCommand::FlushPage(0xcafebabe000),
            TlbCommand::FlushAll,
            TlbCommand::FlushAll,
            TlbCommand::FlushPage(0xcafebabe000),
        ]
    );
    // after the switch the edits show
    let old = active.switch(table);
    assert_eq!(active.take_commands(), vec![TlbCommand::LoadRoot(frame.start_address())]);
    assert_eq!(active.mapper.root_frame().unwrap(), frame);
    assert_eq!(active.mapper.translate_page(seen).unwrap().number(), 0x600);
    assert_eq!(active.mapper.translate(0xb8123), Some(0xb8123));
    // and back
    active.switch(old);
    assert_eq!(active.mapper.translate_page(seen).unwrap().number(), 0x500);
    let _ = allocator.allocate_frame();
}

#[test]
fn kernel_image_is_mapped_with_the_flags_of_its_sections() {
    let mut mapper = Mapper::new(Frame::containing_address(0x10a000));
    let mut allocator = allocator();
    let boot_info = boot_information();
    map_kernel_image(&mut mapper, &mut allocator, &boot_info);
    // code: to be read and run
    for frame in 0x100..0x104u64 {
        let leaf = mapper.leaf(Page::from_number(frame)).unwrap();
        assert_eq!((leaf.level, leaf.frame, leaf.flags), (1, frame, PRESENT));
    }
    // constants: to be read only
    for frame in 0x104..0x106u64 {
        let leaf = mapper.leaf(Page::from_number(frame)).unwrap();
        assert_eq!((leaf.frame, leaf.flags), (frame, PRESENT | NO_EXECUTE));
    }
    // variables
    for frame in 0x106..0x110u64 {
        let leaf = mapper.leaf(Page::from_number(frame)).unwrap();
        assert_eq!((leaf.frame, leaf.flags), (frame, PRESENT | WRITABLE | NO_EXECUTE));
    }
    assert!(mapper.leaf(Page::from_number(0x110)).is_none());
    assert!(mapper.leaf(Page::from_number(0xff)).is_none());
    // the section that is not loaded is not mapped
    assert!(mapper.leaf(Page::from_number(0)).is_none());
    assert!(mapper.leaf(Page::from_number(1)).is_none());
    // the screen and the boot loader's record
    assert_eq!(mapper.leaf(Page::from_number(0xb8)).unwrap().flags, PRESENT | WRITABLE);
    assert!(mapper.leaf(Page::from_number(0xb9)).is_none());
    assert_eq!(mapper.leaf(Page::from_number(0x300)).unwrap().flags, PRESENT);
    assert!(mapper.leaf(Page::from_number(0x301)).is_none());
}

#[test]
fn remap_switches_to_new_tables_and_leaves_a_guard_page() {
    let active = active_table();
    let allocator = allocator();
    let boot_info = boot_information();
    let (mut active, allocator) = remap_the_kernel(&boot_info, active, allocator);
    // the new root table lies in the first frame that was free
    assert_eq!(active.mapper.active_frame().number(), 1);
    assert_eq!(active.mapper.root_frame().unwrap().number(), 1);
    assert_eq!(active.mapper.translate(0x100010), Some(0x100010));
    assert_eq!(active.mapper.translate(0x10fff0), Some(0x10fff0));
    assert_eq!(active.mapper.translate(0xb8000), Some(0xb8000));
    assert_eq!(active.mapper.translate(0x300400), Some(0x300400));
    // a section of constants is not writable
    let leaf = active.mapper.leaf(Page::containing_address(0x104000)).unwrap();
    assert_eq!(leaf.flags & WRITABLE, 0);
    assert_eq!(leaf.flags & NO_EXECUTE, NO_EXECUTE);
    // the page of the old root table is a guard page now, and its frame is free
    assert!(active.mapper.translate(0x10a000).is_none());
    assert_eq!(active.mapper.translate(0x109fff), Some(0x109fff));
    assert_eq!(active.mapper.translate(0x10b000), Some(0x10b000));
    assert!(!allocator.frame_is_used(0x10a));
    assert!(active.mapper.table(&Frame::from_number(0x10a)).is_none());
    assert!(active.mapper.translate_page(Page::from_number(0xcafebabe)).is_none());
    assert_eq!(
        active.take_commands(),
        vec![
            TlbCommand::FlushPage(0xcafebabe000),
            TlbCommand::FlushPage(0xcafebabe000),
            TlbCommand::FlushPage(0xcafebabe000),
            TlbCommand::FlushAll,
            TlbCommand::FlushAll,
            TlbCommand::FlushPage(0xcafebabe000),
            TlbCommand::LoadRoot(0x1000),
            TlbCommand::FlushPage(0x10a000),
        ]
    );
}

#[test]
fn stack_of_four_pages() {
    let mut active = active_table();
    let mut allocator = allocator();
    let range = Page::range_inclusive(
        Page::containing_address(0x5000_0000),
        Page::containing_address(0x5000_0000 + 100 * 4096),
    );
    let mut stacks = StackAllocator::new(range);
    let stack = stacks.alloc_stack(&mut active, 4, &mut allocator).unwrap();
    assert_eq!(stack.top() - stack.bottom(), 4 * 4096);
    assert_eq!(stack.bottom(), 0x5000_1000);
    assert_eq!(stack.top(), 0x5000_5000);
    assert!(active.mapper.translate(stack.bottom() - 1).is_none());
    assert!(active.mapper.translate(stack.top()).is_none());
    for offset in [0u64, 0x1000, 0x2000, 0x3fff] {
        assert!(active.mapper.translate(stack.bottom() + offset).is_some());
    }
    let leaf = active.mapper.leaf(Page::containing_address(stack.bottom())).unwrap();
    assert_eq!(leaf.flags, PRESENT | WRITABLE);
    assert_eq!(
        active.take_commands(),
        vec![
            TlbCommand::FlushPage(0x5000_1000),
            TlbCommand::FlushPage(0x5000_2000),
            TlbCommand::FlushPage(0x5000_3000),
            TlbCommand::FlushPage(0x5000_4000),
        ]
    );
}

#[test]
fn stacks_do_not_overlap_and_have_guard_pages() {
    let mut active = active_table();
    let mut allocator = allocator();
    let range = Page::range_inclusive(
        Page::containing_address(0x5000_0000),
        Page::containing_address(0x5000_0000 + 9 * 4096),
    );
    let mut stacks = StackAllocator::new(range);
    let first = stacks.alloc_stack(&mut active, 1, &mut allocator).unwrap();
    let second = stacks.alloc_stack(&mut active, 3, &mut allocator).unwrap();
    assert_eq!((first.bottom(), first.top()), (0x5000_1000, 0x5000_2000));
    assert_eq!((second.bottom(), second.top()), (0x5000_3000, 0x5000_6000));
    assert!(first.top() <= second.bottom() - 4096);
    // the guard pages
    assert!(active.mapper.translate(0x5000_0000).is_none());
    assert!(active.mapper.translate(0x5000_2000).is_none());
    // the frames differ
    let mut frames = Vec::new();
    for address in [0x5000_1000u64, 0x5000_3000, 0x5000_4000, 0x5000_5000] {
        frames.push(active.mapper.translate(address).unwrap());
    }
    frames.sort();
    frames.dedup();
    assert_eq!(frames.len(), 4);
    // no stack without pages, and none where too few pages are left
    assert!(stacks.alloc_stack(&mut active, 0, &mut allocator).is_none());
    assert!(stacks.alloc_stack(&mut active, 4, &mut allocator).is_none());
    assert!(active.mapper.translate(0x5000_7000).is_none());
    // the pages that are left are still to be had
    let third = stacks.alloc_stack(&mut active, 3, &mut allocator).unwrap();
    assert_eq!((third.bottom(), third.top()), (0x5000_7000, 0x5000_a000));
    assert!(stacks.alloc_stack(&mut active, 1, &mut allocator).is_none());
}

#[test]
fn init_sets_up_tables_heap_and_stacks() {
    let boot_info = boot_information();
    let (mut controller, mut allocator) = init(&boot_info, active_table());
    assert_eq!(HEAP_START, 0x4000_0000);
    assert_eq!(HEAP_SIZE, 80 * 4096);
    let mapper = &controller.active_table.mapper;
    assert_eq!(mapper.translate(0x100010), Some(0x100010));
    assert!(mapper.translate(0x10a000).is_none());
    // the heap is mapped, writable, each page to a frame of its own
    let mut frames = Vec::new();
    for page in 0..80u64 {
        let leaf = mapper.leaf(Page::containing_address(HEAP_START + page * 4096)).unwrap();
        assert_eq!(leaf.flags, PRESENT | WRITABLE);
        assert!(allocator.frame_is_used(leaf.frame));
        frames.push(leaf.frame);
    }
    frames.sort();
    frames.dedup();
    assert_eq!(frames.len(), 80);
    assert!(mapper.translate(HEAP_START - 1).is_none());
    assert!(mapper.translate(HEAP_START + HEAP_SIZE).is_none());
    // stacks come from the pages behind the heap
    let stack = controller.alloc_stack(1, &mut allocator).unwrap();
    assert_eq!(stack.bottom(), HEAP_START + HEAP_SIZE + 4096);
    assert_eq!(stack.top(), HEAP_START + HEAP_SIZE + 2 * 4096);
    assert!(controller.active_table.mapper.translate(HEAP_START + HEAP_SIZE).is_none());
    let big = controller.alloc_stack(98, &mut allocator).unwrap();
    assert_eq!(big.top() - big.bottom(), 98 * 4096);
    assert!(controller.alloc_stack(1, &mut allocator).is_none());
}

#[test]
fn bounds_of_the_kernel_image() {
    let boot_info = boot_information();
    assert_eq!(kernel::memory::kernel_bounds(&boot_info.elf_sections), Some((0x100000, 0x110000)));
    let none = vec![ElfSection { addr: 0x5000, size: 0x1000, flags: ELF_SECTION_WRITABLE }];
    assert_eq!(kernel::memory::kernel_bounds(&none), None);
}

#[test]
fn boot_record_is_checked() {
    let root = Frame::containing_address(0x10a000);
    assert!(check_boot(&boot_information(), &root));
    // the root table has to lie in the kernel's image
    assert!(!check_boot(&boot_information(), &Frame::containing_address(0x200000)));
    // sections start at the start of a page
    let mut unaligned = boot_information();
    unaligned.elf_sections[2].addr += 8;
    assert!(!check_boot(&unaligned, &root));
    // no two sections share a page
    let mut shared = boot_information();
    shared.elf_sections[2].size = 0x2001;
    assert!(!check_boot(&shared, &root));
    // the image keeps clear of the screen, the record and the heap
    let mut screen = boot_information();
    screen.elf_sections.push(ElfSection { addr: 0xb8000, size: 1, flags: ELF_SECTION_ALLOCATED });
    assert!(!check_boot(&screen, &root));
    let mut record = boot_information();
    record.start_address = 0x10f000;
    record.end_address = 0x10f100;
    assert!(!check_boot(&record, &root));
    let mut heap = boot_information();
    heap.elf_sections.push(ElfSection {
        addr: HEAP_START + 0x3000,
        size: 0x10,
        flags: ELF_SECTION_ALLOCATED,
    });
    assert!(!check_boot(&heap, &root));
    // there has to be memory, and enough of it
    let mut none = boot_information();
    none.memory_areas.clear();
    assert!(!check_boot(&none, &root));
    let mut little = boot_information();
    // the root table and four tables for the image, three tables on the way to the
    // temporary page, and for the heap 80 pages and two tables, less the frame of the old
    // root table, which the heap can take: 89 frames
    little.memory_areas = vec![
        MemoryArea { base_addr: 0, length: 0x10000 },
        MemoryArea { base_addr: 0x100000, length: 0x50000 },
    ];
    assert_eq!(frames_that_decide(&mut little, 0x110000, 0x70000), 89);
    // an image with a page under the heap's table of level 1: two tables more for the
    // image, none for the heap
    let mut near = boot_information();
    near.elf_sections.push(ElfSection {
        addr: HEAP_START + 0x100000,
        size: 0x1000,
        flags: ELF_SECTION_ALLOCATED,
    });
    near.memory_areas = vec![
        MemoryArea { base_addr: 0, length: 0x10000 },
        MemoryArea { base_addr: 0x100000, length: HEAP_START + 0x40000 },
    ];
    assert_eq!(frames_that_decide(&mut near, HEAP_START + 0x101000, HEAP_START + 0x70000), 89);
    // a page under the heap's table of level 2 only: two tables more for the image, one
    // for the heap
    let mut far = boot_information();
    far.elf_sections.push(ElfSection {
        addr: HEAP_START + 0x200000,
        size: 0x1000,
        flags: ELF_SECTION_ALLOCATED,
    });
    far.memory_areas = vec![
        MemoryArea { base_addr: 0, length: 0x10000 },
        MemoryArea { base_addr: 0x100000, length: HEAP_START + 0x140000 },
    ];
    assert_eq!(frames_that_decide(&mut far, HEAP_START + 0x201000, HEAP_START + 0x170000), 90);
    // a section has to be loaded
    let mut unloaded = boot_information();
    unloaded.elf_sections.truncate(1);
    assert!(!check_boot(&unloaded, &root));
}

/// Takes frames from `allocator` until `left` of them are left.
fn drain_to(allocator: &mut BitmapFrameAllocator, left: u64) {
    while allocator.available_frames() > left {
        allocator.allocate_frame().unwrap();
    }
}

#[test]
fn identity_map_range_takes_the_tables_it_needs() {
    let mut mapper = Mapper::new(Frame::containing_address(0x10a000));
    let mut allocator = allocator();
    // the frames 0x1fe to 0x201 lie under two tables of level 1, one of level 2, one of
    // level 3
    drain_to(&mut allocator, 4);
    identity_map_range(
        &mut mapper,
        &mut allocator,
        Frame::from_number(0x1fe),
        Frame::from_number(0x201),
        EntryFlags::writable(),
    );
    assert_eq!(allocator.available_frames(), 0);
    for frame in 0x1fe..0x202u64 {
        assert_eq!(mapper.translate_page(Page::from_number(frame)).unwrap().number(), frame);
    }
    assert!(mapper.leaf(Page::from_number(0x1fd)).is_none());
    assert!(mapper.leaf(Page::from_number(0x202)).is_none());
    // a range without a frame takes nothing
    identity_map_range(
        &mut mapper,
        &mut allocator,
        Frame::from_number(0x300),
        Frame::from_number(0x2ff),
        EntryFlags::writable(),
    );
    assert!(mapper.leaf(Page::from_number(0x300)).is_none());
    // frames under the tables that are there take nothing
    identity_map_range(
        &mut mapper,
        &mut allocator,
        Frame::from_number(0x210),
        Frame::from_number(0x21f),
        EntryFlags::present(),
    );
    assert_eq!(mapper.leaf(Page::from_number(0x21f)).unwrap().frame, 0x21f);
}

#[test]
fn range_of_pages_takes_a_frame_for_each_page_and_each_table() {
    let mut active = active_table();
    let mut allocator = allocator();
    // four pages under two tables of level 1, one of level 2, one of level 3
    drain_to(&mut allocator, 8);
    map_range(
        &mut active,
        &mut allocator,
        Page::from_number(0x501fe),
        Page::from_number(0x50201),
        EntryFlags::writable(),
    );
    assert_eq!(allocator.available_frames(), 0);
    let mut frames = Vec::new();
    for page in 0x501fe..0x50202u64 {
        frames.push(active.mapper.leaf(Page::from_number(page)).unwrap().frame);
    }
    frames.sort();
    frames.dedup();
    assert_eq!(frames.len(), 4);
    assert_eq!(active.take_commands().len(), 4);
}

#[test]
fn stack_takes_the_frames_of_its_pages_and_tables() {
    let mut active = active_table();
    let mut allocator = allocator();
    let range = Page::range_inclusive(
        Page::containing_address(0x5000_0000),
        Page::containing_address(0x5000_0000 + 100 * 4096),
    );
    let mut stacks = StackAllocator::new(range);
    // four pages under one table of each level
    drain_to(&mut allocator, 7);
    let stack = stacks.alloc_stack(&mut active, 4, &mut allocator).unwrap();
    assert_eq!(stack.top() - stack.bottom(), 4 * 4096);
    assert_eq!(allocator.available_frames(), 0);
    // the tables are there now: a stack of two pages takes two frames
    allocator.deallocate_frame(Frame::from_number(0x7000));
    allocator.deallocate_frame(Frame::from_number(0x7001));
    assert_eq!(allocator.available_frames(), 2);
    let second = stacks.alloc_stack(&mut active, 2, &mut allocator).unwrap();
    assert_eq!(second.bottom(), stack.top() + 4096);
    assert!(active.mapper.translate(second.bottom()).is_some());
    assert!(active.mapper.translate(second.top() - 1).is_some());
}

#[test]
fn remap_takes_the_frames_of_the_new_tables() {
    let active = active_table();
    let mut allocator = allocator();
    let boot_info = boot_information();
    // the new root table; under it a table of level 3, one of level 2 and two of level 1,
    // since the record lies 2 MiB above the kernel; and three tables on the way to the
    // temporary page
    drain_to(&mut allocator, 8);
    let (active, allocator) = remap_the_kernel(&boot_info, active, allocator);
    // the frame of the old root table is free again
    assert_eq!(allocator.available_frames(), 1);
    assert!(!allocator.frame_is_used(0x10a));
    assert_eq!(active.mapper.translate(0x100010), Some(0x100010));
    assert_eq!(active.mapper.translate(0xb8000), Some(0xb8000));
    assert_eq!(active.mapper.translate(0x300400), Some(0x300400));
    assert!(active.mapper.translate(0x10a000).is_none());
}

#[test]
fn init_with_the_frames_it_asks_for() {
    // eight frames for the remap; for the heap its 80 pages, a table of level 2 and one of
    // level 1: the table of level 3 is that of the kernel's image; one of the heap's pages
    // takes the frame of the old root table
    let mut boot_info = boot_information();
    boot_info.memory_areas = vec![
        MemoryArea { base_addr: 0, length: 0x10000 },
        MemoryArea { base_addr: 0x100000, length: 0x80000 },
    ];
    let mut length = 0x80000;
    loop {
        let allocator = BitmapFrameAllocator::new(
            0x100000,
            0x110000,
            0x300000,
            0x300800,
            &boot_info.memory_areas,
        );
        if allocator.available_frames() <= 89 {
            assert_eq!(allocator.available_frames(), 89);
            break;
        }
        length -= 0x1000;
        boot_info.memory_areas[1].length = length;
    }
    let (controller, allocator) = init(&boot_info, active_table());
    // no frame is left
    assert_eq!(allocator.available_frames(), 0);
    let mapper = &controller.active_table.mapper;
    assert_eq!(mapper.translate(0x100010), Some(0x100010));
    let mut frames = Vec::new();
    for page in 0..80u64 {
        frames.push(mapper.leaf(Page::containing_address(HEAP_START + page * 4096)).unwrap().frame);
    }
    assert!(frames.contains(&0x10a));
    frames.sort();
    frames.dedup();
    assert_eq!(frames.len(), 80);
    assert!(mapper.translate(HEAP_START + HEAP_SIZE).is_none());
}

#[test]
fn loaded_section_without_a_byte_holds_no_page() {
    let root = Frame::containing_address(0x10a000);
    let mut boot_info = boot_information();
    // one on a page of its own, one at the start of a page that another section holds
    boot_info.elf_sections.push(ElfSection { addr: 0x200000, size: 0, flags: ELF_SECTION_ALLOCATED });
    boot_info.elf_sections.push(ElfSection {
        addr: 0x104000,
        size: 0,
        flags: ELF_SECTION_ALLOCATED | ELF_SECTION_WRITABLE,
    });
    assert!(check_boot(&boot_info, &root));
    let mut mapper = Mapper::new(Frame::containing_address(0x10a000));
    let mut frames = allocator();
    map_kernel_image(&mut mapper, &mut frames, &boot_info);
    assert!(mapper.leaf(Page::from_number(0x200)).is_none());
    assert!(mapper.leaf(Page::from_number(0x1ff)).is_none());
    // the page of the constants is mapped with the flags of the constants
    let leaf = mapper.leaf(Page::from_number(0x104)).unwrap();
    assert_eq!((leaf.frame, leaf.flags), (0x104, PRESENT | NO_EXECUTE));
    let (active, _allocator) = remap_the_kernel(&boot_info, active_table(), allocator());
    assert!(active.mapper.translate(0x200000).is_none());
    assert_eq!(active.mapper.translate(0x104010), Some(0x104010));
}

/// Lets the second memory area of `boot_info` grow frame by frame up to the length `end`,
/// and hands back the least number of free frames with which the record passes. It passes
/// with every number from that one on, and with none below it.
fn frames_that_decide(boot_info: &mut BootInformation, kernel_end: u64, end: u64) -> u64 {
    frames_that_decide_for(boot_info, 0x10a, kernel_end, end)
}

/// The same with the active root table in the frame `root`.
fn frames_that_decide_for(
    boot_info: &mut BootInformation,
    root: u64,
    kernel_end: u64,
    end: u64,
) -> u64 {
    let root = Frame::from_number(root);
    let mut least = None;
    while boot_info.memory_areas[1].length < end {
        let free = BitmapFrameAllocator::new(
            0x100000,
            kernel_end,
            0x300000,
            0x300800,
            &boot_info.memory_areas,
        ).available_frames();
        let ok = check_boot(boot_info, &root);
        match least {
            None => if ok {
                least = Some(free);
            },
            Some(least) => assert!(ok && free > least),
        }
        boot_info.memory_areas[1].length += 0x1000;
    }
    least.unwrap()
}

#[test]
fn init_where_the_image_has_tables_of_the_heap() {
    // a page of the image under the heap's table of level 1: the heap takes its 80 pages
    // and no table
    let mut near = boot_information();
    near.elf_sections.push(ElfSection {
        addr: HEAP_START + 0x100000,
        size: 0x1000,
        flags: ELF_SECTION_ALLOCATED,
    });
    near.memory_areas = vec![
        MemoryArea { base_addr: 0, length: 0x10000 },
        MemoryArea { base_addr: 0x100000, length: HEAP_START + 0x40000 },
    ];
    assert_eq!(frames_that_decide(&mut near, HEAP_START + 0x101000, HEAP_START + 0x70000), 89);
    let mut free = 0;
    while free != 89 {
        near.memory_areas[1].length -= 0x1000;
        free = BitmapFrameAllocator::new(
            0x100000,
            HEAP_START + 0x101000,
            0x300000,
            0x300800,
            &near.memory_areas,
        ).available_frames();
    }
    assert!(check_boot(&near, &Frame::containing_address(0x10a000)));
    let (controller, allocator) = init(&near, active_table());
    assert_eq!(allocator.available_frames(), 0);
    let mapper = &controller.active_table.mapper;
    assert_eq!(mapper.translate(HEAP_START + 0x100010), Some(HEAP_START + 0x100010));
    for page in 0..80u64 {
        assert!(mapper.leaf(Page::containing_address(HEAP_START + page * 4096)).is_some());
    }
    assert!(mapper.translate(HEAP_START + HEAP_SIZE).is_none());
}

#[test]
fn tables_of_the_image_are_counted() {
    // the root table, a table of level 3, one of level 2, and two of level 1: one for the
    // kernel and the screen, one for the boot loader's record
    let mut boot_info = boot_information();
    assert_eq!(count_image_frames(&boot_info), 5);
    // a record beside the kernel takes no table of its own
    boot_info.start_address = 0x120000;
    boot_info.end_address = 0x120800;
    assert_eq!(count_image_frames(&boot_info), 4);
    // a section of 1024 pages and one byte from 2 MiB on lies under three tables of level 1
    boot_info.elf_sections.push(ElfSection {
        addr: 0x200000,
        size: 0x400001,
        flags: ELF_SECTION_ALLOCATED,
    });
    assert_eq!(count_image_frames(&boot_info), 7);
    // a section at 512 GiB has the tables of all three levels to itself
    boot_info.elf_sections.push(ElfSection {
        addr: 0x80_0000_0000,
        size: 1,
        flags: ELF_SECTION_ALLOCATED,
    });
    assert_eq!(count_image_frames(&boot_info), 10);
    // sections that are not loaded or hold no byte take nothing
    boot_info.elf_sections.push(ElfSection { addr: 0x4000_0000, size: 0x1000, flags: 0 });
    boot_info.elf_sections.push(ElfSection {
        addr: 0x5000_0000,
        size: 0,
        flags: ELF_SECTION_ALLOCATED,
    });
    assert_eq!(count_image_frames(&boot_info), 10);
}

#[test]
fn pages_of_the_image_in_a_range() {
    let boot_info = boot_information();
    // the kernel lies in the pages 0x100 to 0x10f
    assert!(image_holds_beside(&boot_info, 0x100, 0x100, 0));
    assert!(image_holds_beside(&boot_info, 0x10f, 0x200, 0));
    assert!(image_holds_beside(&boot_info, 0, 0x100, 0));
    assert!(!image_holds_beside(&boot_info, 0x110, 0x2ff, 0));
    assert!(!image_holds_beside(&boot_info, 0xb9, 0xff, 0));
    // the page that is left out
    assert!(!image_holds_beside(&boot_info, 0x100, 0x100, 0x100));
    assert!(image_holds_beside(&boot_info, 0x100, 0x101, 0x100));
    assert!(image_holds_beside(&boot_info, 0x100, 0x101, 0x101));
    assert!(!image_holds_beside(&boot_info, 0x10f, 0x2ff, 0x10f));
    // the screen and the boot loader's record
    assert!(image_holds_beside(&boot_info, 0xb8, 0xb8, 0));
    assert!(!image_holds_beside(&boot_info, 0xb8, 0xb8, 0xb8));
    assert!(image_holds_beside(&boot_info, 0x2f0, 0x300, 0));
    assert!(!image_holds_beside(&boot_info, 0x2f0, 0x300, 0x300));
    assert!(!image_holds_beside(&boot_info, 0x301, 0x400, 0));
    // the section that is not loaded counts for nothing
    assert!(!image_holds_beside(&boot_info, 0, 1, 5));
    // a range without a page
    assert!(!image_holds_beside(&boot_info, 0x105, 0x104, 0));
}

#[test]
fn tables_that_go_with_the_old_root_table_count_for_the_heap() {
    // the old root table in a section of its own, the only page of the image under its
    // table of level 1: six frames for the new tables, three for the temporary page, 82
    // for the heap, less the frame of the old root table and that of the table of level 1
    let mut alone = boot_information();
    alone.elf_sections.push(ElfSection {
        addr: 0x600000,
        size: 0x1000,
        flags: ELF_SECTION_ALLOCATED | ELF_SECTION_WRITABLE,
    });
    alone.memory_areas = vec![
        MemoryArea { base_addr: 0, length: 0x10000 },
        MemoryArea { base_addr: 0x100000, length: 0x540000 },
    ];
    assert_eq!(count_image_frames(&alone), 6);
    assert_eq!(frames_that_decide_for(&mut alone, 0x600, 0x601000, 0x570000), 89);
    let mut free = 0;
    while free != 89 {
        alone.memory_areas[1].length -= 0x1000;
        free = BitmapFrameAllocator::new(0x100000, 0x601000, 0x300000, 0x300800, &alone.memory_areas)
            .available_frames();
    }
    let (controller, allocator) = init(&alone, ActivePageTable::new(Frame::from_number(0x600)));
    assert_eq!(allocator.available_frames(), 0);
    let mapper = &controller.active_table.mapper;
    assert!(mapper.translate(0x600000).is_none());
    assert_eq!(mapper.translate(0x100010), Some(0x100010));
    for page in 0..80u64 {
        assert!(mapper.leaf(Page::containing_address(HEAP_START + page * 4096)).is_some());
    }
    // the only page of the image in its GiB: the tables of the levels 1 and 2 go with it
    let mut far = boot_information();
    far.elf_sections.push(ElfSection {
        addr: 0x8000_0000,
        size: 0x1000,
        flags: ELF_SECTION_ALLOCATED | ELF_SECTION_WRITABLE,
    });
    far.memory_areas = vec![
        MemoryArea { base_addr: 0, length: 0x10000 },
        MemoryArea { base_addr: 0x100000, length: 0x7ff4_0000 },
    ];
    assert_eq!(count_image_frames(&far), 7);
    assert_eq!(frames_that_decide_for(&mut far, 0x80000, 0x8000_1000, 0x7ff7_0000), 89);
    let mut free = 0;
    while free != 89 {
        far.memory_areas[1].length -= 0x1000;
        free = BitmapFrameAllocator::new(
            0x100000,
            0x8000_1000,
            0x300000,
            0x300800,
            &far.memory_areas,
        ).available_frames();
    }
    let (controller, allocator) = init(&far, ActivePageTable::new(Frame::from_number(0x80000)));
    assert_eq!(allocator.available_frames(), 0);
    assert!(controller.active_table.mapper.translate(0x8000_0000).is_none());
    for page in 0..80u64 {
        let address = HEAP_START + page * 4096;
        assert!(controller.active_table.mapper.leaf(Page::containing_address(address)).is_some());
    }
}
