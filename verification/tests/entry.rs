use kernel::memory::boot::ElfSection;
use kernel::memory::boot::ELF_SECTION_ALLOCATED;
use kernel::memory::boot::ELF_SECTION_EXECUTABLE;
use kernel::memory::boot::ELF_SECTION_WRITABLE;
use kernel::memory::paging::entry::Entry;
use kernel::memory::paging::entry::EntryFlags;
use kernel::memory::paging::entry::HUGE_PAGE;
use kernel::memory::paging::entry::NO_EXECUTE;
use kernel::memory::paging::entry::PRESENT;
use kernel::memory::paging::entry::WRITABLE;
use kernel::memory::Frame;

#[test]
fn set_and_read_back() {
    let mut entry = Entry::new(0);
    let flags = EntryFlags::present() | EntryFlags::writable() | EntryFlags::no_execute();
    entry.set(Frame::containing_address(0x1234_5000), flags);
    assert_eq!(entry.pointed_frame().unwrap().number(), 0x12345);
    assert_eq!(entry.flags(), flags);
    assert_eq!(entry.flags().bits(), PRESENT | WRITABLE | NO_EXECUTE);
    assert!(!entry.is_unused());
}

#[test]
fn largest_frame_fits() {
    let mut entry = Entry::new(0);
    entry.set(Frame::from_number(0xff_ffff_ffff), EntryFlags::present());
    assert_eq!(entry.pointed_frame().unwrap().number(), 0xff_ffff_ffff);
    assert_eq!(entry.flags().bits(), PRESENT);
    assert_eq!(entry.counter_bits(), 0);
}

#[test]
fn entry_that_is_not_present_points_nowhere() {
    let mut entry = Entry::new(0);
    entry.set(Frame::containing_address(0x5000), EntryFlags::writable());
    assert!(entry.pointed_frame().is_none());
    assert_eq!(entry.flags().bits(), WRITABLE);
}

#[test]
fn counter_survives_set_and_set_unused() {
    let mut entry = Entry::new(0);
    entry.set_counter_bits(0x2a5);
    assert_eq!(entry.counter_bits(), 0x2a5);
    assert!(entry.is_unused());
    entry.set(Frame::containing_address(0x7000), EntryFlags::present() | EntryFlags::huge_page());
    assert_eq!(entry.counter_bits(), 0x2a5);
    assert_eq!(entry.flags().bits(), PRESENT | HUGE_PAGE);
    entry.set_unused();
    assert_eq!(entry.counter_bits(), 0x2a5);
    assert!(entry.is_unused());
    assert!(entry.pointed_frame().is_none());
    assert_eq!(entry.flags().bits(), 0);
}

#[test]
fn counter_leaves_frame_and_flags() {
    let mut entry = Entry::new(0);
    entry.set(Frame::containing_address(0xabc000), EntryFlags::present() | EntryFlags::no_execute());
    entry.set_counter_bits(0x3ff);
    assert_eq!(entry.counter_bits(), 0x3ff);
    assert_eq!(entry.pointed_frame().unwrap().number(), 0xabc);
    assert_eq!(entry.flags().bits(), PRESENT | NO_EXECUTE);
    entry.set_counter_bits(0);
    assert_eq!(entry.counter_bits(), 0);
    assert_eq!(entry.pointed_frame().unwrap().number(), 0xabc);
}

#[test]
fn set_zero_clears_the_counter_too() {
    let mut entry = Entry::new(0);
    entry.set_counter_bits(7);
    entry.set(Frame::containing_address(0x1000), EntryFlags::present());
    entry.set_zero();
    assert_eq!(entry.counter_bits(), 0);
    assert!(entry.is_unused());
}

#[test]
fn flags_from_bits() {
    let flags = EntryFlags::from_bits_truncate(0xffff_ffff_ffff_ffff);
    assert_eq!(flags.bits(), 0x8000_0000_0000_01ff);
    assert!(flags.contains(EntryFlags::global()));
    assert!(EntryFlags::empty().bits() == 0);
    assert!(!EntryFlags::present().contains(EntryFlags::writable()));
    assert!((EntryFlags::present() | EntryFlags::writable()).contains(EntryFlags::writable()));
    assert_eq!(EntryFlags::user_accessible().bits(), 0x4);
    assert_eq!(EntryFlags::write_through().bits(), 0x8);
    assert_eq!(EntryFlags::no_cache().bits(), 0x10);
    assert_eq!(EntryFlags::accessed().bits(), 0x20);
    assert_eq!(EntryFlags::dirty().bits(), 0x40);
}

#[test]
fn flags_of_sections() {
    let text = ElfSection {
        addr: 0x100000,
        size: 0x1000,
        flags: ELF_SECTION_ALLOCATED | ELF_SECTION_EXECUTABLE,
    };
    assert_eq!(EntryFlags::from_elf_section_flags(&text).bits(), PRESENT);
    let data = ElfSection {
        addr: 0x101000,
        size: 0x1000,
        flags: ELF_SECTION_ALLOCATED | ELF_SECTION_WRITABLE,
    };
    assert_eq!(EntryFlags::from_elf_section_flags(&data).bits(), PRESENT | WRITABLE | NO_EXECUTE);
    let rodata = ElfSection { addr: 0x102000, size: 0x1000, flags: ELF_SECTION_ALLOCATED };
    assert_eq!(EntryFlags::from_elf_section_flags(&rodata).bits(), PRESENT | NO_EXECUTE);
    let debug = ElfSection { addr: 0, size: 0x1000, flags: 0 };
    assert_eq!(EntryFlags::from_elf_section_flags(&debug).bits(), NO_EXECUTE);
    assert!(!debug.is_allocated());
    assert_eq!(data.end_address(), 0x102000);
}

#[test]
fn entry_hands_out_its_word() {
    assert_eq!(Entry::new(0).bits(), 0);
    assert_eq!(Entry::new(0x8000_0000_0012_3007).bits(), 0x8000_0000_0012_3007);
    let mut entry = Entry::new(0);
    entry.set(Frame::containing_address(0x1234_5000), EntryFlags::present() | EntryFlags::writable());
    assert_eq!(entry.bits(), 0x1234_5000 | PRESENT | WRITABLE);
    entry.set_counter_bits(5);
    assert_eq!(entry.bits() & 0x000f_ffff_ffff_f000, 0x1234_5000);
    assert_ne!(entry.bits(), 0x1234_5000 | PRESENT | WRITABLE);
    entry.set_unused();
    assert_eq!(entry.bits() & 0x800f_ffff_ffff_f1ff, 0);
    entry.set_zero();
    assert_eq!(entry.bits(), 0);
}
