use kernel::memory::paging::entry::EntryFlags;
use kernel::memory::paging::table::Level1;
use kernel::memory::paging::table::Level2;
use kernel::memory::paging::table::Level4;
use kernel::memory::paging::table::Table;
use kernel::memory::Frame;

#[test]
fn new_table_is_empty() {
    let table: Table<Level1> = Table::new();
    assert_eq!(table.entry_count(), 0);
    for i in 0..512 {
        assert!(table.index(i).is_unused());
        assert_eq!(table.index(i).counter_bits(), 0);
    }
}

#[test]
fn entry_count_reads_back() {
    let mut table: Table<Level1> = Table::new();
    for count in [0usize, 1, 7, 8, 63, 64, 255, 256, 511, 512] {
        table.set_entry_count(count);
        assert_eq!(table.entry_count(), count);
    }
}

#[test]
fn entry_count_is_split_over_four_entries() {
    let mut table: Table<Level1> = Table::new();
    table.set_entry_count(0o1234 & 0x1ff);
    // 0o234 = 156: the digits 4, 3, 2 and 0 from the lowest
    assert_eq!(table.index(0).counter_bits(), 4);
    assert_eq!(table.index(1).counter_bits(), 3);
    assert_eq!(table.index(2).counter_bits(), 2);
    assert_eq!(table.index(3).counter_bits(), 0);
    table.set_entry_count(512);
    assert_eq!(table.index(0).counter_bits(), 0);
    assert_eq!(table.index(3).counter_bits(), 1);
}

#[test]
fn entry_count_outlasts_set_and_set_unused() {
    let mut table: Table<Level1> = Table::new();
    table.set_entry_count(300);
    table.index_mut(2).set(Frame::containing_address(0x5000), EntryFlags::present());
    table.index_mut(100).set(Frame::containing_address(0x6000), EntryFlags::present());
    assert_eq!(table.entry_count(), 300);
    table.index_mut(2).set_unused();
    table.index_mut(100).set_unused();
    assert_eq!(table.entry_count(), 300);
    assert!(table.index(2).is_unused());
}

#[test]
fn zero_clears_entries_and_count() {
    let mut table: Table<Level2> = Table::new();
    table.set_entry_count(17);
    table.index_mut(9).set(Frame::containing_address(0x5000), EntryFlags::present());
    table.zero();
    assert_eq!(table.entry_count(), 0);
    assert!(table.index(9).is_unused());
    assert!(table.index(9).pointed_frame().is_none());
}

#[test]
fn next_table_of_present_entries_only() {
    let mut table: Table<Level4> = Table::new();
    assert!(table.next_table(5).is_none());
    assert!(table.next_table_address(0xffff_ffff_ffff_f000, 5).is_none());
    table.index_mut(5).set(
        Frame::containing_address(0x9000),
        EntryFlags::present() | EntryFlags::writable(),
    );
    assert_eq!(table.next_table(5).unwrap().number(), 9);
    assert_eq!(
        table.next_table_address(0xffff_ffff_ffff_f000, 5),
        Some(0xffff_ffff_ffe0_5000)
    );
    table.index_mut(6).set(
        Frame::containing_address(0x20_0000),
        EntryFlags::present() | EntryFlags::huge_page(),
    );
    assert!(table.next_table(6).is_none());
    assert!(table.next_table_address(0xffff_ffff_ffff_f000, 6).is_none());
}

#[test]
fn recursive_addresses_of_the_levels() {
    let mut p4: Table<Level4> = Table::new();
    p4.index_mut(1).set(Frame::containing_address(0x9000), EntryFlags::present());
    let p3_address = p4.next_table_address(0o177777_777_777_777_777_0000, 1).unwrap();
    assert_eq!(p3_address, 0o177777_777_777_777_001_0000);
    let mut p3: Table<kernel::memory::paging::table::Level3> = Table::new();
    p3.index_mut(2).set(Frame::containing_address(0xa000), EntryFlags::present());
    let p2_address = p3.next_table_address(p3_address, 2).unwrap();
    assert_eq!(p2_address, 0o177777_777_777_001_002_0000);
    let mut p2: Table<Level2> = Table::new();
    p2.index_mut(3).set(Frame::containing_address(0xb000), EntryFlags::present());
    assert_eq!(p2.next_table_address(p2_address, 3).unwrap(), 0o177777_777_001_002_003_0000);
}
