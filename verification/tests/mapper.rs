use kernel::memory::bitmap_frame_allocator::BitmapFrameAllocator;
use kernel::memory::boot::MemoryArea;
use kernel::memory::paging::entry::Entry;
use kernel::memory::paging::entry::EntryFlags;
use kernel::memory::paging::entry::HUGE_PAGE;
use kernel::memory::paging::entry::NO_EXECUTE;
use kernel::memory::paging::entry::PRESENT;
use kernel::memory::paging::entry::WRITABLE;
use kernel::memory::paging::mapper::Mapper;
use kernel::memory::paging::mapper::MapperFlush;
use kernel::memory::paging::mapper::MapperFlushAll;
use kernel::memory::paging::ActivePageTable;
use kernel::memory::paging::Page;
use kernel::memory::paging::TlbCommand;
use kernel::memory::Frame;
use kernel::memory::FrameAllocator;

/// 1000 frames of memory, of which the frames 100 to 199 hold the kernel.
fn allocator() -> BitmapFrameAllocator {
    let areas = vec![MemoryArea { base_addr: 0, length: 1000 * 4096 }];
    BitmapFrameAllocator::new(100 * 4096, 199 * 4096, 150 * 4096, 150 * 4096, &areas)
}

/// A mapper whose root table lies in frame 120, within the kernel.
fn mapper() -> Mapper {
    Mapper::new(Frame::from_number(120))
}

fn free_frames(allocator: &BitmapFrameAllocator) -> Vec<u64> {
    (0..1000).filter(|n| !allocator.frame_is_used(*n)).collect()
}

#[test]
fn new_mapper_maps_nothing() {
    let mapper = mapper();
    assert_eq!(mapper.root_frame().unwrap().number(), 120);
    assert!(mapper.translate(0).is_none());
    assert!(mapper.translate(0x10_0000_0123).is_none());
    assert!(mapper.translate_page(Page::containing_address(0xffff_8000_0000_0000)).is_none());
    // the recursive entry shows the root table to itself
    assert_eq!(mapper.translate(0xffff_ffff_ffff_f000), Some(120 * 4096));
}

#[test]
fn map_translate_unmap() {
    let mut mapper = mapper();
    let mut allocator = allocator();
    let page = Page::containing_address(0x10_0000_0000);
    let flush = mapper.map_to(
        page,
        Frame::containing_address(0),
        EntryFlags::writable() | EntryFlags::no_execute(),
        &mut allocator,
    );
    assert_eq!(flush.page(), page);
    flush.ignore();
    assert_eq!(mapper.translate(0x10_0000_0123), Some(0x123));
    let leaf = mapper.leaf(page).unwrap();
    assert_eq!(leaf.level, 1);
    assert_eq!(leaf.frame, 0);
    assert_eq!(leaf.flags, PRESENT | WRITABLE | NO_EXECUTE);
    let frame = mapper.unmap_inner(&page, false, &mut allocator);
    assert_eq!(frame.number(), 0);
    assert!(mapper.translate(0x10_0000_0123).is_none());
}

#[test]
fn unmap_gives_the_frame_back() {
    let mut mapper = mapper();
    let mut allocator = allocator();
    let page = Page::containing_address(0x10_0000_0000);
    mapper.map_to(page, Frame::from_number(700), EntryFlags::writable(), &mut allocator).ignore();
    allocator.set_used(700, true);
    mapper.unmap(page, &mut allocator).ignore();
    assert!(!allocator.frame_is_used(700));
    assert!(mapper.translate_page(page).is_none());
}

#[test]
fn translate_every_offset_of_a_page() {
    let mut mapper = mapper();
    let mut allocator = allocator();
    let page = Page::containing_address(0x7fff_ffff_f000);
    let frame = Frame::containing_address(0x345_6000);
    mapper.map_to(
        page,
        frame.clone(),
        EntryFlags::present() | EntryFlags::writable(),
        &mut allocator,
    ).ignore();
    assert_eq!(mapper.translate(page.start_address()), Some(frame.start_address()));
    for offset in 0..4096 {
        assert_eq!(
            mapper.translate(page.start_address() + offset).unwrap(),
            frame.start_address() + offset
        );
    }
    assert!(mapper.translate(page.start_address() - 1).is_none());
}

#[test]
fn map_takes_tables_from_the_allocator() {
    let mut mapper = mapper();
    let mut allocator = allocator();
    mapper.map_to(
        Page::containing_address(0x10_0000_0000),
        Frame::from_number(500),
        EntryFlags::writable(),
        &mut allocator,
    ).ignore();
    // the tables of level 3, 2 and 1 lie in the first three free frames
    assert!(allocator.frame_is_used(1));
    assert!(allocator.frame_is_used(2));
    assert!(allocator.frame_is_used(3));
    assert!(!allocator.frame_is_used(4));
    assert_eq!(mapper.table(&Frame::from_number(1)).unwrap().entry_count(), 1);
    assert_eq!(mapper.table(&Frame::from_number(3)).unwrap().entry_count(), 1);
    assert_eq!(mapper.table(&Frame::from_number(120)).unwrap().entry_count(), 1);
    // a second page next to the first needs no new table
    mapper.map_to(
        Page::containing_address(0x10_0000_1000),
        Frame::from_number(501),
        EntryFlags::writable(),
        &mut allocator,
    ).ignore();
    assert!(!allocator.frame_is_used(4));
    assert_eq!(mapper.table(&Frame::from_number(3)).unwrap().entry_count(), 2);
    assert_eq!(mapper.table(&Frame::from_number(2)).unwrap().entry_count(), 1);
}

#[test]
fn map_then_unmap_gives_every_frame_back() {
    let mut mapper = mapper();
    let mut allocator = allocator();
    let before = free_frames(&allocator);
    for _ in 0..5 {
        let page = Page::containing_address(0x4000_0000_0000);
        mapper.map(page, EntryFlags::writable(), &mut allocator).ignore();
        assert_eq!(free_frames(&allocator).len(), before.len() - 4);
        mapper.unmap(page, &mut allocator).ignore();
        assert_eq!(free_frames(&allocator), before);
    }
    assert_eq!(mapper.table(&Frame::from_number(120)).unwrap().entry_count(), 0);
    assert!(mapper.table(&Frame::from_number(1)).is_none());
}

#[test]
fn tables_go_when_their_last_entry_goes() {
    let mut mapper = mapper();
    let mut allocator = allocator();
    let before = free_frames(&allocator);
    // 512 pages that share one table of level 1
    let first = Page::containing_address(0x20_0000_0000).number();
    for i in 0..512 {
        let page = Page::from_number(first + i);
        mapper.map_to(page, Frame::from_number(200 + i), EntryFlags::writable(), &mut allocator).ignore();
    }
    assert_eq!(free_frames(&allocator).len(), before.len() - 3);
    let p1 = Frame::from_number(3);
    assert_eq!(mapper.table(&p1).unwrap().entry_count(), 512);
    assert_eq!(mapper.table(&Frame::from_number(2)).unwrap().entry_count(), 1);
    for i in 0..511 {
        let page = Page::from_number(first + i);
        let frame = mapper.unmap_inner(&page, false, &mut allocator);
        assert_eq!(frame.number(), 200 + i);
        assert_eq!(mapper.table(&p1).unwrap().entry_count(), (511 - i) as usize);
        assert_eq!(free_frames(&allocator).len(), before.len() - 3);
    }
    // the last page of the table: the tables of all three levels go
    let page = Page::from_number(first + 511);
    assert_eq!(mapper.translate_page(page).unwrap().number(), 711);
    mapper.unmap_inner(&page, false, &mut allocator);
    assert!(mapper.table(&p1).is_none());
    assert!(mapper.table(&Frame::from_number(2)).is_none());
    assert!(mapper.table(&Frame::from_number(1)).is_none());
    assert_eq!(free_frames(&allocator), before);
    assert_eq!(mapper.table(&Frame::from_number(120)).unwrap().entry_count(), 0);
}

#[test]
fn unmap_stops_at_tables_that_stay_in_use() {
    let mut mapper = mapper();
    let mut allocator = allocator();
    // two pages with the same table of level 2, but different tables of level 1
    let a = Page::containing_address(0x20_0000_0000);
    let b = Page::containing_address(0x20_0020_0000);
    mapper.map_to(a, Frame::from_number(300), EntryFlags::writable(), &mut allocator).ignore();
    mapper.map_to(b, Frame::from_number(301), EntryFlags::writable(), &mut allocator).ignore();
    assert_eq!(mapper.table(&Frame::from_number(2)).unwrap().entry_count(), 2);
    mapper.unmap_inner(&a, false, &mut allocator);
    assert!(mapper.table(&Frame::from_number(3)).is_none());
    assert_eq!(mapper.table(&Frame::from_number(2)).unwrap().entry_count(), 1);
    assert_eq!(mapper.translate_page(b).unwrap().number(), 301);
    assert!(mapper.translate_page(a).is_none());
}

#[test]
fn unmap_return_keeps_the_parents() {
    let mut mapper = mapper();
    let mut allocator = allocator();
    let page = Page::containing_address(0x20_0000_0000);
    mapper.map_to(page, Frame::from_number(300), EntryFlags::writable(), &mut allocator).ignore();
    let (flush, frame) = mapper.unmap_return(page, true, &mut allocator);
    flush.ignore();
    assert_eq!(frame.number(), 300);
    assert!(mapper.translate_page(page).is_none());
    // the tables stay, the table of level 1 without an entry
    assert_eq!(mapper.table(&Frame::from_number(3)).unwrap().entry_count(), 0);
    assert_eq!(mapper.table(&Frame::from_number(2)).unwrap().entry_count(), 1);
    assert!(allocator.frame_is_used(3));
    // mapping again takes no new frame
    mapper.map_to(page, Frame::from_number(300), EntryFlags::writable(), &mut allocator).ignore();
    assert!(!allocator.frame_is_used(4));
    let (flush, _) = mapper.unmap_return(page, false, &mut allocator);
    flush.ignore();
    assert!(mapper.table(&Frame::from_number(3)).is_none());
}

#[test]
fn identity_map_maps_a_frame_to_its_own_page() {
    let mut mapper = mapper();
    let mut allocator = allocator();
    let flush = mapper.identity_map(Frame::containing_address(0xb8000), EntryFlags::writable(), &mut allocator);
    assert_eq!(flush.page().number(), 0xb8);
    flush.ignore();
    assert_eq!(mapper.translate(0xb8f00), Some(0xb8f00));
}

#[test]
fn other_pages_are_left_alone() {
    let mut mapper = mapper();
    let mut allocator = allocator();
    let a = Page::containing_address(0x1000);
    let b = Page::containing_address(0x2000);
    let c = Page::containing_address(0x4000_0000);
    mapper.map_to(a, Frame::from_number(600), EntryFlags::writable(), &mut allocator).ignore();
    mapper.map_to(b, Frame::from_number(601), EntryFlags::empty(), &mut allocator).ignore();
    mapper.map_to(c, Frame::from_number(602), EntryFlags::writable(), &mut allocator).ignore();
    mapper.unmap_inner(&b, false, &mut allocator);
    assert_eq!(mapper.translate_page(a).unwrap().number(), 600);
    assert!(mapper.translate_page(b).is_none());
    assert_eq!(mapper.translate_page(c).unwrap().number(), 602);
    assert_eq!(mapper.leaf(a).unwrap().flags, PRESENT | WRITABLE);
}

#[test]
fn huge_page_of_two_mebibytes() {
    let mut mapper = mapper();
    let mut allocator = allocator();
    // make the tables on the way, then plant an entry for a huge page in the table of
    // level 2
    let page = Page::containing_address(0x4000_0000);
    mapper.map_to(page, Frame::from_number(600), EntryFlags::writable(), &mut allocator).ignore();
    let p2 = Frame::from_number(2);
    let mut entry = Entry::new(0);
    entry.set(Frame::from_number(0x1200), EntryFlags::present() | EntryFlags::huge_page());
    mapper.write_entry(&p2, 5, entry);
    let first = 0x4000_0000 + 5 * 0x20_0000;
    assert_eq!(mapper.translate(first), Some(0x1200 * 4096));
    assert_eq!(mapper.translate(first + 0x1234), Some(0x1200 * 4096 + 0x1234));
    assert_eq!(mapper.translate(first + 0x1f_ffff), Some(0x1200 * 4096 + 0x1f_ffff));
    for i in 0..512u64 {
        let frame = mapper.translate_page(Page::containing_address(first + i * 4096)).unwrap();
        assert_eq!(frame.number(), 0x1200 + i);
    }
    let leaf = mapper.leaf(Page::containing_address(first)).unwrap();
    assert_eq!(leaf.level, 2);
    assert_eq!(leaf.flags, PRESENT | HUGE_PAGE);
    // the page before and the page behind are not mapped
    assert!(mapper.translate(first - 1).is_none());
    assert!(mapper.translate(first + 0x20_0000).is_none());
    assert_eq!(mapper.translate_page(page).unwrap().number(), 600);
}

#[test]
fn huge_page_of_one_gibibyte() {
    let mut mapper = mapper();
    let mut allocator = allocator();
    let page = Page::containing_address(0);
    mapper.map_to(page, Frame::from_number(600), EntryFlags::writable(), &mut allocator).ignore();
    let p3 = Frame::from_number(1);
    let mut entry = Entry::new(0);
    entry.set(Frame::from_number(0x4_0000), EntryFlags::present() | EntryFlags::huge_page());
    mapper.write_entry(&p3, 3, entry);
    let first = 3 * 0x4000_0000u64;
    assert_eq!(mapper.translate(first + 0x1234_5678), Some(0x4000_0000 + 0x1234_5678));
    assert_eq!(mapper.leaf(Page::containing_address(first)).unwrap().level, 3);
}

#[test]
fn flushes_are_written_down() {
    let mut table = ActivePageTable::new(Frame::from_number(120));
    let page = Page::containing_address(0x5000);
    MapperFlush::new(page).flush(&mut table);
    let mut all = MapperFlushAll::new();
    all.flush(&mut table);
    let mut all = MapperFlushAll::new();
    all.consume(MapperFlush::new(page));
    all.flush(&mut table);
    table.flush(Page::containing_address(0x7000));
    table.flush_all();
    MapperFlushAll::new().ignore();
    let commands = table.take_commands();
    assert_eq!(
        commands,
        vec![
            TlbCommand::FlushPage(0x5000),
            TlbCommand::FlushAll,
            TlbCommand::FlushPage(0x7000),
            TlbCommand::FlushAll,
        ]
    );
    assert!(table.take_commands().is_empty());
}

#[test]
fn pages_and_indices() {
    let page = Page::containing_address(0o177777_777_001_002_003_4567);
    assert_eq!(page.p4_index(), 0o777);
    assert_eq!(page.p3_index(), 0o001);
    assert_eq!(page.p2_index(), 0o002);
    assert_eq!(page.p1_index(), 0o003);
    assert_eq!(page.start_address(), 0o177777_777_001_002_003_0000);
    let low = Page::containing_address(0x0000_7fff_ffff_ffff);
    assert_eq!(low.p4_index(), 255);
    assert_eq!(low.p1_index(), 511);
    let high = Page::containing_address(0xffff_8000_0000_0000);
    assert_eq!(high.p4_index(), 256);
    assert_eq!(high.number(), 0xf_fff8_0000_0000);
}

#[test]
fn page_ranges() {
    let mut pages = Page::range_inclusive(
        Page::containing_address(0x3000),
        Page::containing_address(0x8000),
    );
    assert_eq!(pages.next().unwrap().number(), 3);
    assert_eq!(pages.nth(2).unwrap().number(), 6);
    assert_eq!(pages.next().unwrap().number(), 7);
    assert_eq!(pages.next().unwrap().number(), 8);
    assert!(pages.next().is_none());
    let mut short = Page::range_inclusive(
        Page::containing_address(0x3000),
        Page::containing_address(0x4000),
    );
    assert!(short.nth(2).is_none());
    assert!(short.next().is_none());
}

#[test]
fn canonical_addresses() {
    assert!(Page::is_valid_address(0));
    assert!(Page::is_valid_address(0x0000_7fff_ffff_ffff));
    assert!(!Page::is_valid_address(0x0000_8000_0000_0000));
    assert!(!Page::is_valid_address(0xffff_7fff_ffff_ffff));
    assert!(Page::is_valid_address(0xffff_8000_0000_0000));
    assert!(Page::is_valid_address(0xffff_ffff_ffff_ffff));
}

#[test]
fn root_tables_come_and_go() {
    let mut mapper = mapper();
    let mut allocator = allocator();
    let page = Page::containing_address(0x5000);
    mapper.map_to(page, Frame::from_number(600), EntryFlags::writable(), &mut allocator).ignore();
    // a second root table, which the mapper works on for a while
    let second = Frame::from_number(130);
    mapper.install_root(&second);
    assert_eq!(mapper.table(&second).unwrap().index(511).pointed_frame().unwrap(), second);
    mapper.set_recursive_entry(&Frame::from_number(120), second.clone());
    assert_eq!(mapper.root_frame().unwrap(), second);
    assert_eq!(mapper.active_frame().number(), 120);
    assert!(mapper.translate_page(page).is_none());
    mapper.map_to(page, Frame::from_number(601), EntryFlags::writable(), &mut allocator).ignore();
    assert_eq!(mapper.translate_page(page).unwrap().number(), 601);
    mapper.set_recursive_entry(&Frame::from_number(120), Frame::from_number(120));
    assert_eq!(mapper.root_frame().unwrap().number(), 120);
    assert_eq!(mapper.translate_page(page).unwrap().number(), 600);
    // the second becomes the active one, and the first is forgotten
    let first = mapper.switch_to(second.clone());
    assert_eq!(first.number(), 120);
    assert_eq!(mapper.translate_page(page).unwrap().number(), 601);
    mapper.forget_root(&first);
    assert!(mapper.table(&first).is_none());
    assert_eq!(mapper.translate_page(page).unwrap().number(), 601);
}

#[test]
fn active_table_maps_like_its_mapper() {
    let mut table = ActivePageTable::new(Frame::from_number(120));
    let mut allocator = allocator();
    let page = Page::containing_address(0x7000_0000);
    let flush = table.map(page, EntryFlags::writable(), &mut allocator);
    flush.flush(&mut table);
    let frame = table.translate_page(page).unwrap();
    assert!(allocator.frame_is_used(frame.number()));
    assert_eq!(table.translate(0x7000_0abc), Some(frame.start_address() + 0xabc));
    table.identity_map(Frame::from_number(0xb8), EntryFlags::writable(), &mut allocator).ignore();
    assert_eq!(table.translate(0xb8010), Some(0xb8010));
    table.map_to(
        Page::containing_address(0x9000),
        Frame::from_number(0x99),
        EntryFlags::empty(),
        &mut allocator,
    ).ignore();
    assert_eq!(table.translate(0x9004), Some(0x99004));
    let flush = table.unmap(page, &mut allocator);
    flush.flush(&mut table);
    assert!(table.translate_page(page).is_none());
    assert!(!allocator.frame_is_used(frame.number()));
    assert_eq!(
        table.take_commands(),
        vec![TlbCommand::FlushPage(0x7000_0000), TlbCommand::FlushPage(0x7000_0000)]
    );
}

#[test]
fn huge_page_at_a_frame_that_its_size_does_not_divide() {
    let mut mapper = mapper();
    let mut allocator = allocator();
    let page = Page::containing_address(0x4000_0000);
    mapper.map_to(page, Frame::from_number(600), EntryFlags::writable(), &mut allocator).ignore();
    assert!(mapper.is_aligned_at(page));
    let p2 = Frame::from_number(2);
    let mut entry = Entry::new(0);
    entry.set(Frame::from_number(0x1201), EntryFlags::present() | EntryFlags::huge_page());
    mapper.write_entry(&p2, 5, entry);
    let first = Page::containing_address(0x4000_0000 + 5 * 0x20_0000);
    assert_eq!(mapper.leaf(first).unwrap().level, 2);
    assert!(!mapper.is_aligned_at(first));
    assert!(!mapper.is_aligned_at(Page::from_number(first.number() + 511)));
    // the pages beside it can be translated
    assert!(mapper.is_aligned_at(page));
    assert!(mapper.is_aligned_at(Page::from_number(first.number() + 512)));
    // a frame that the size divides
    let mut entry = Entry::new(0);
    entry.set(Frame::from_number(0x1200), EntryFlags::present() | EntryFlags::huge_page());
    mapper.write_entry(&p2, 5, entry);
    assert!(mapper.is_aligned_at(first));
    // 1 GiB
    let p3 = Frame::from_number(1);
    let mut entry = Entry::new(0);
    entry.set(Frame::from_number(0x4_0200), EntryFlags::present() | EntryFlags::huge_page());
    mapper.write_entry(&p3, 3, entry);
    assert!(!mapper.is_aligned_at(Page::containing_address(3 * 0x4000_0000)));
}

#[test]
fn full_table_is_emptied_in_any_order() {
    let mut mapper = mapper();
    let mut allocator = allocator();
    let free = allocator.available_frames();
    // 512 pages from a boundary of 2 MiB on, each mapped to a frame of the kernel, which
    // the allocator does not hand out
    let first = Page::containing_address(0x20_0000_0000).number();
    for i in 0..512u64 {
        let page = Page::from_number(first + i);
        let frame = Frame::from_number(100 + (i % 100));
        mapper.map_to(page, frame, EntryFlags::writable(), &mut allocator).ignore();
        // the first call makes the three tables, the others none
        assert_eq!(allocator.available_frames(), free - 3);
        assert_eq!(mapper.table(&Frame::from_number(3)).unwrap().entry_count(), (i + 1) as usize);
    }
    assert_eq!(mapper.table(&Frame::from_number(2)).unwrap().entry_count(), 1);
    assert_eq!(mapper.table(&Frame::from_number(1)).unwrap().entry_count(), 1);
    for i in 0..512u64 {
        let page = Page::from_number(first + i);
        assert_eq!(mapper.translate_page(page).unwrap().number(), 100 + (i % 100));
    }
    // unmapped in an order that jumps to and fro
    for step in 0..512u64 {
        let i = (step * 205 + 77) % 512;
        let page = Page::from_number(first + i);
        let frame = mapper.unmap_inner(&page, false, &mut allocator);
        assert_eq!(frame.number(), 100 + (i % 100));
        if step < 511 {
            assert_eq!(allocator.available_frames(), free - 3);
            assert_eq!(
                mapper.table(&Frame::from_number(3)).unwrap().entry_count(),
                (511 - step) as usize
            );
            assert_eq!(mapper.table(&Frame::from_number(2)).unwrap().entry_count(), 1);
            assert_eq!(mapper.table(&Frame::from_number(1)).unwrap().entry_count(), 1);
        }
    }
    // the last call has freed the three tables
    assert_eq!(allocator.available_frames(), free);
    for frame in 1..4u64 {
        assert!(mapper.table(&Frame::from_number(frame)).is_none());
        assert!(!allocator.frame_is_used(frame));
    }
    let root = mapper.table(&Frame::from_number(120)).unwrap();
    assert_eq!(root.entry_count(), 0);
    assert!(root.index(Page::from_number(first).p4_index()).is_unused());
}
