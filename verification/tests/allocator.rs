use kernel::memory::allocate_frame;
use kernel::memory::bitmap_frame_allocator::BitmapFrameAllocator;
use kernel::memory::boot::MemoryArea;
use kernel::memory::deallocate_frame;
use kernel::memory::frame_allocator_init;
use kernel::memory::Frame;
use kernel::memory::FrameAllocator;

fn two_areas() -> Vec<MemoryArea> {
    vec![
        MemoryArea { base_addr: 0, length: 0x9FC00 },
        MemoryArea { base_addr: 0x100000, length: 0x7F00000 },
    ]
}

fn boot_allocator() -> BitmapFrameAllocator {
    BitmapFrameAllocator::new(0x100000, 0x200000, 0x300000, 0x301000, &two_areas())
}

fn small_allocator() -> BitmapFrameAllocator {
    // 40 frames of memory, of which the frames 8 to 11 hold the kernel and frame 20 the
    // boot loader's record
    let areas = vec![MemoryArea { base_addr: 0, length: 40 * 4096 }];
    BitmapFrameAllocator::new(8 * 4096, 11 * 4096, 20 * 4096, 20 * 4096 + 100, &areas)
}

#[test]
fn first_frames_after_boot() {
    let mut allocator = boot_allocator();
    assert_eq!(allocator.allocate_frame().unwrap().number(), 1);
    assert_eq!(allocator.allocate_frame().unwrap().start_address(), 0x2000);
    assert_eq!(allocator.allocate_frame().unwrap().number(), 3);
}

#[test]
fn allocation_skips_gap_kernel_and_boot_record() {
    let mut allocator = boot_allocator();
    let mut expected: u64 = 1;
    for _ in 0..0x400 {
        if expected == 0x9f {
            // the gap between the areas, then the kernel image
            expected = 0x201;
        }
        if expected == 0x300 {
            // the boot loader's record
            expected = 0x302;
        }
        let frame = allocator.allocate_frame().unwrap();
        assert_eq!(frame.number(), expected);
        expected += 1;
    }
}

#[test]
fn reserved_frames_are_used_from_the_start() {
    let allocator = boot_allocator();
    assert!(!allocator.frame_is_used(0));
    assert!(!allocator.frame_is_used(0x9e));
    assert!(allocator.frame_is_used(0x9f));
    assert!(allocator.frame_is_used(0xff));
    assert!(allocator.frame_is_used(0x100));
    assert!(allocator.frame_is_used(0x200));
    assert!(!allocator.frame_is_used(0x201));
    assert!(allocator.frame_is_used(0x300));
    assert!(allocator.frame_is_used(0x301));
    assert!(!allocator.frame_is_used(0x302));
    assert!(!allocator.frame_is_used(0x7fff));
    // the first frame behind the usable memory
    assert!(allocator.frame_is_used(0x8000));
}

#[test]
fn no_reserved_frame_is_ever_handed_out() {
    let mut allocator = small_allocator();
    let mut handed_out = Vec::new();
    while let Some(frame) = allocator.allocate_frame() {
        handed_out.push(frame.number());
    }
    // frames 1 to 39 but for 8 to 11 and 20, then frame 0 after the scan started over
    let mut expected: Vec<u64> = (1..40).filter(|n| !(8..=11).contains(n) && *n != 20).collect();
    expected.push(0);
    assert_eq!(handed_out, expected);
}

#[test]
fn no_frame_is_handed_out_twice() {
    let mut allocator = small_allocator();
    let mut seen = std::collections::HashSet::new();
    while let Some(frame) = allocator.allocate_frame() {
        assert!(seen.insert(frame.number()));
    }
    assert_eq!(seen.len(), 35);
}

#[test]
fn deallocated_frame_comes_back_after_exhaustion() {
    let mut allocator = small_allocator();
    while allocator.allocate_frame().is_some() {}
    allocator.deallocate_frame(Frame::containing_address(17 * 4096));
    assert_eq!(allocator.allocate_frame().unwrap().number(), 17);
    assert!(allocator.allocate_frame().is_none());
}

#[test]
fn deallocated_frame_before_the_cursor_comes_back_at_once() {
    let mut allocator = small_allocator();
    while allocator.allocate_frame().is_some() {}
    allocator.deallocate_frame(Frame::containing_address(30 * 4096));
    assert_eq!(allocator.allocate_frame().unwrap().number(), 30);
    // the scan of that call started over; the next call starts over again where it has to
    allocator.deallocate_frame(Frame::containing_address(5 * 4096));
    assert_eq!(allocator.allocate_frame().unwrap().number(), 5);
    assert!(allocator.allocate_frame().is_none());
    // from the cursor on first, then from frame 0
    allocator.deallocate_frame(Frame::containing_address(3 * 4096));
    allocator.deallocate_frame(Frame::containing_address(7 * 4096));
    allocator.deallocate_frame(Frame::containing_address(2 * 4096));
    assert_eq!(allocator.allocate_frame().unwrap().number(), 2);
    allocator.deallocate_frame(Frame::containing_address(1 * 4096));
    assert_eq!(allocator.allocate_frame().unwrap().number(), 3);
    assert_eq!(allocator.allocate_frame().unwrap().number(), 7);
    assert_eq!(allocator.allocate_frame().unwrap().number(), 1);
    assert!(allocator.allocate_frame().is_none());
}

#[test]
fn no_frame_means_that_every_frame_is_in_use() {
    // two frames of memory
    let areas = vec![MemoryArea { base_addr: 0, length: 0x2000 }];
    let mut allocator = BitmapFrameAllocator::new(0x5000, 0x5000, 0x6000, 0x6000, &areas);
    assert_eq!(allocator.last_frame(), 2);
    assert_eq!(allocator.allocate_frame().unwrap().number(), 1);
    // the scan starts over
    assert_eq!(allocator.allocate_frame().unwrap().number(), 0);
    allocator.deallocate_frame(Frame::from_number(0));
    assert_eq!(allocator.available_frames(), 1);
    assert_eq!(allocator.allocate_frame().unwrap().number(), 0);
    assert_eq!(allocator.available_frames(), 0);
    assert!(allocator.allocate_frame().is_none());
    assert!(allocator.frame_is_used(0) && allocator.frame_is_used(1));
    // whenever there is no frame, none is free; whenever one is free, there is a frame
    let mut allocator = small_allocator();
    let mut steps: u64 = 0;
    for round in 0..200u64 {
        let free = (0..40).filter(|n| !allocator.frame_is_used(*n)).count() as u64;
        assert_eq!(allocator.available_frames(), free);
        if round % 7 == 3 || round % 11 == 5 {
            allocator.deallocate_frame(Frame::from_number((round * 13 + steps) % 40));
        } else {
            let frame = allocator.allocate_frame();
            assert_eq!(frame.is_none(), free == 0);
            steps += 1;
        }
    }
}

#[test]
fn deallocated_frame_is_free_again() {
    let mut allocator = small_allocator();
    let frame = allocator.allocate_frame().unwrap();
    let number = frame.number();
    assert!(allocator.frame_is_used(number));
    allocator.deallocate_frame(frame);
    assert!(!allocator.frame_is_used(number));
}

#[test]
fn full_blocks_are_passed_over() {
    // 200 frames, of which the first 130 hold the kernel
    let areas = vec![MemoryArea { base_addr: 0, length: 200 * 4096 }];
    let mut allocator = BitmapFrameAllocator::new(0, 129 * 4096, 150 * 4096, 150 * 4096, &areas);
    assert!(allocator.block_is_used(0));
    assert!(allocator.block_is_used(1));
    assert!(!allocator.block_is_used(2));
    assert_eq!(allocator.allocate_frame().unwrap().number(), 130);
}

#[test]
fn blocks_and_frames() {
    assert_eq!(BitmapFrameAllocator::first_frame_in_block(3).number(), 192);
    assert_eq!(BitmapFrameAllocator::last_frame_in_block(3).number(), 255);
    assert_eq!(BitmapFrameAllocator::get_block_number(192), 3);
    assert_eq!(BitmapFrameAllocator::get_block_number(255), 3);
    assert_eq!(BitmapFrameAllocator::get_block_number(256), 4);
}

#[test]
fn set_used_marks_one_frame() {
    let mut allocator = small_allocator();
    allocator.set_used(3, true);
    assert!(allocator.frame_is_used(3));
    assert!(!allocator.frame_is_used(2));
    assert!(!allocator.frame_is_used(4));
    allocator.set_used(3, false);
    assert!(!allocator.frame_is_used(3));
}

#[test]
fn allocator_behind_the_global_slot() {
    let mut slot: Option<BitmapFrameAllocator> = None;
    frame_allocator_init(&mut slot, 0x100000, 0x200000, 0x300000, 0x301000, &two_areas());
    let frame = allocate_frame(&mut slot).unwrap();
    assert_eq!(frame.number(), 1);
    assert_eq!(allocate_frame(&mut slot).unwrap().number(), 2);
    deallocate_frame(&mut slot, frame);
    assert!(!slot.as_ref().unwrap().frame_is_used(1));
}

#[test]
fn frame_ranges() {
    let mut frames = Frame::range_inclusive(
        Frame::containing_address(0x3000),
        Frame::containing_address(0x5fff),
    );
    assert_eq!(frames.next().unwrap().number(), 3);
    assert_eq!(frames.next().unwrap().number(), 4);
    assert_eq!(frames.next().unwrap().number(), 5);
    assert!(frames.next().is_none());
    let mut empty = Frame::range_inclusive(
        Frame::containing_address(0x5000),
        Frame::containing_address(0x3000),
    );
    assert!(empty.next().is_none());
}

#[test]
fn available_frames_are_counted() {
    let mut allocator = small_allocator();
    assert_eq!(allocator.last_frame(), 40);
    // frames 0 to 39 but for 8 to 11 and 20
    assert_eq!(allocator.available_frames(), 35);
    allocator.allocate_frame();
    assert_eq!(allocator.available_frames(), 34);
    while allocator.allocate_frame().is_some() {}
    assert_eq!(allocator.available_frames(), 0);
    allocator.deallocate_frame(Frame::from_number(3));
    allocator.deallocate_frame(Frame::from_number(30));
    assert_eq!(allocator.available_frames(), 2);
    assert_eq!(allocator.allocate_frame().unwrap().number(), 3);
    assert_eq!(allocator.available_frames(), 1);
    // a frame before the cursor counts too
    allocator.deallocate_frame(Frame::from_number(1));
    assert_eq!(allocator.available_frames(), 2);
    // a frame that is free already adds nothing
    allocator.deallocate_frame(Frame::from_number(1));
    assert_eq!(allocator.available_frames(), 2);
    assert_eq!(allocator.allocate_frame().unwrap().number(), 30);
    assert_eq!(allocator.allocate_frame().unwrap().number(), 1);
    assert!(allocator.allocate_frame().is_none());
}

#[test]
fn kernel_and_record_are_reserved_frame_by_frame() {
    let mut allocator = small_allocator();
    assert!(!allocator.frame_is_used(13));
    // the frames that hold a byte of the range, its last byte included
    allocator.map_kernel(13 * 4096 + 5, 15 * 4096);
    for frame in 13..16u64 {
        assert!(allocator.frame_is_used(frame));
    }
    assert!(!allocator.frame_is_used(12));
    assert!(!allocator.frame_is_used(16));
    allocator.map_multiboot(30 * 4096, 30 * 4096 + 4095);
    assert!(allocator.frame_is_used(30));
    assert!(!allocator.frame_is_used(29));
    assert!(!allocator.frame_is_used(31));
    // what was reserved stays reserved
    for frame in 8..12u64 {
        assert!(allocator.frame_is_used(frame));
    }
    assert!(allocator.frame_is_used(20));
    // none of them is handed out
    let mut handed_out = Vec::new();
    while let Some(frame) = allocator.allocate_frame() {
        handed_out.push(frame.number());
    }
    for frame in [8u64, 11, 13, 14, 15, 20, 30] {
        assert!(!handed_out.contains(&frame));
    }
    assert!(handed_out.contains(&12));
    assert!(handed_out.contains(&16));
}

#[test]
fn memory_areas_set_the_end_and_reserve_the_gaps() {
    let mut allocator = small_allocator();
    assert_eq!(allocator.last_frame(), 40);
    let areas = vec![
        MemoryArea { base_addr: 0, length: 24 * 4096 },
        MemoryArea { base_addr: 28 * 4096, length: 30 * 4096 },
    ];
    allocator.map_memory_areas(&areas);
    // the frame behind the usable memory
    assert_eq!(allocator.last_frame(), 58);
    assert!(allocator.frame_is_used(58));
    // the frames between the areas, from the end of the first to the byte before the second
    for frame in 24..28u64 {
        assert!(allocator.frame_is_used(frame));
    }
    assert!(!allocator.frame_is_used(23));
    assert!(!allocator.frame_is_used(28));
    assert!(!allocator.frame_is_used(57));
    // the frame that ended the memory before stays reserved
    assert!(allocator.frame_is_used(40));
}
