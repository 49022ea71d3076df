use vstd::prelude::*;
use std::marker::PhantomData;
use crate::memory::Frame;
use crate::memory::FrameAllocator;
use crate::memory::paging::entry::COUNTER_MASK;
use crate::memory::paging::entry::Entry;
use crate::memory::paging::entry::EntryFlags;
use crate::memory::paging::entry::FLAGS_MASK;
use crate::memory::paging::entry::FRAME_LIMIT;
use crate::memory::paging::entry::lemma_flag_constants;
use crate::memory::paging::entry::lemma_word_cleared;
use crate::memory::paging::entry::lemma_word_ranges;
use crate::memory::paging::entry::lemma_word_set;
use crate::memory::paging::entry::lemma_word_with_counter;
use crate::memory::paging::entry::PRESENT;
use crate::memory::paging::entry::word_cleared;
use crate::memory::paging::entry::word_counter;
use crate::memory::paging::entry::word_frame;
use crate::memory::paging::entry::word_huge;
use crate::memory::paging::entry::word_leads_on;
use crate::memory::paging::entry::word_set;
use crate::memory::paging::entry::word_with_counter;
use crate::memory::paging::entry::WRITABLE;
use crate::memory::paging::physical::PhysicalMemory;

verus! {

/// The number of entries of a table.
pub const ENTRY_COUNT: usize = 512;

/// A level of the page tables.
pub trait TableLevel {
    /// The level as a number: 4 for the root, 1 for the tables whose entries map pages.
    spec fn level() -> nat;

    /// There are four levels.
    proof fn lemma_level_range()
        ensures
            1 <= Self::level() <= 4,
    ;
}

/// The level of the root tables.
pub enum Level4 {
    Level4,
}

/// The level below the root tables.
pub enum Level3 {
    Level3,
}

/// The level above the tables whose entries map pages.
pub enum Level2 {
    Level2,
}

/// The level of the tables whose entries map pages. Its tables lead to no further table.
pub enum Level1 {
    Level1,
}

impl TableLevel for Level4 {
    open spec fn level() -> nat {
        4
    }

    proof fn lemma_level_range() {
    }
}

impl TableLevel for Level3 {
    open spec fn level() -> nat {
        3
    }

    proof fn lemma_level_range() {
    }
}

impl TableLevel for Level2 {
    open spec fn level() -> nat {
        2
    }

    proof fn lemma_level_range() {
    }
}

impl TableLevel for Level1 {
    open spec fn level() -> nat {
        1
    }

    proof fn lemma_level_range() {
    }
}

/// A level whose tables point to tables of the next level.
pub trait HierarchicalLevel: TableLevel {
    type NextLevel: TableLevel;

    /// The next level lies one below.
    proof fn lemma_next_level()
        ensures
            Self::NextLevel::level() + 1 == Self::level(),
    ;
}

impl HierarchicalLevel for Level4 {
    type NextLevel = Level3;

    proof fn lemma_next_level() {
    }
}

impl HierarchicalLevel for Level3 {
    type NextLevel = Level2;

    proof fn lemma_next_level() {
    }
}

impl HierarchicalLevel for Level2 {
    type NextLevel = Level1;

    proof fn lemma_next_level() {
    }
}

/// The words of a table whose entries are all zero.
pub open spec fn zero_table() -> Seq<u64> {
    Seq::new(512, |i: int| 0u64)
}

/// The number that the counters `c0` to `c3` of the first four entries stand for, three bits
/// from each, the lowest from the first.
pub open spec fn join_count(c0: u64, c1: u64, c2: u64, c3: u64) -> u64 {
    (((((c3 << 3) | c2) << 3) | c1) << 3) | c0
}

/// The three bits of `count` that the entry `slot` keeps.
pub open spec fn count_part(count: u64, slot: int) -> u64 {
    if slot == 0 {
        count & 7
    } else if slot == 1 {
        (count >> 3) & 7
    } else if slot == 2 {
        (count >> 6) & 7
    } else {
        (count >> 9) & 7
    }
}

/// The entry count that the words `table` hold.
pub open spec fn table_count(table: Seq<u64>) -> u64 {
    join_count(
        word_counter(table[0]),
        word_counter(table[1]),
        word_counter(table[2]),
        word_counter(table[3]),
    )
}

/// The words `table` with the entry count `count` written to the first four counters.
pub open spec fn table_with_count(table: Seq<u64>, count: u64) -> Seq<u64> {
    Seq::new(
        table.len(),
        |i: int|
            if 0 <= i < 4 {
                word_with_counter(table[i], count_part(count, i))
            } else {
                table[i]
            },
    )
}

/// Splitting a count of at most 512 into four parts and joining them gives the count back.
pub proof fn lemma_join_count(count: u64)
    by (bit_vector)
    requires
        count <= 512,
    ensures
        join_count(count & 7, (count >> 3) & 7, (count >> 6) & 7, (count >> 9) & 7) == count,
        count & 7 < 0x400,
        (count >> 3) & 7 < 0x400,
        (count >> 6) & 7 < 0x400,
        (count >> 9) & 7 < 0x400,
{
}

/// Joined counters stay far below the range of a word.
pub proof fn lemma_join_count_range(c0: u64, c1: u64, c2: u64, c3: u64)
    by (bit_vector)
    requires
        c0 < 0x400,
        c1 < 0x400,
        c2 < 0x400,
        c3 < 0x400,
    ensures
        join_count(c0, c1, c2, c3) < 0x10_0000,
        join_count(0, 0, 0, 0) == 0,
{
}

/// A table reads back the count that was written to it, and the write changes nothing but
/// the counters of the first four entries.
pub proof fn lemma_table_with_count(table: Seq<u64>, count: u64)
    requires
        table.len() == 512,
        count <= 512,
    ensures
        table_count(table_with_count(table, count)) == count,
        table_with_count(table, count).len() == 512,
        forall|i: int|
            0 <= i < 512 ==> (#[trigger] table_with_count(table, count)[i]) & !COUNTER_MASK
                == table[i] & !COUNTER_MASK,
        forall|i: int| 4 <= i < 512 ==> (#[trigger] table_with_count(table, count)[i]) == table[i],
{
    lemma_join_count(count);
    lemma_word_with_counter(table[0], count_part(count, 0));
    lemma_word_with_counter(table[1], count_part(count, 1));
    lemma_word_with_counter(table[2], count_part(count, 2));
    lemma_word_with_counter(table[3], count_part(count, 3));
}

/// The entry count outlasts `set` on any entry.
pub proof fn lemma_count_after_set(table: Seq<u64>, index: int, frame: u64, flags: u64)
    requires
        table.len() == 512,
        0 <= index < 512,
        frame < FRAME_LIMIT,
        flags & !FLAGS_MASK == 0,
    ensures
        table_count(table.update(index, word_set(table[index], frame, flags))) == table_count(
            table,
        ),
{
    lemma_word_set(table[index], frame, flags);
}

/// The entry count outlasts `set_unused` on any entry.
pub proof fn lemma_count_after_set_unused(table: Seq<u64>, index: int)
    requires
        table.len() == 512,
        0 <= index < 512,
    ensures
        table_count(table.update(index, word_cleared(table[index]))) == table_count(table),
{
    lemma_word_cleared(table[index]);
}

/// The words of a table after a new table in frame `frame` was hung into entry `index`: the
/// entry count has gone up by one and the entry points to the frame, present and writable.
pub open spec fn table_with_child(table: Seq<u64>, index: int, frame: u64) -> Seq<u64> {
    table_with_leaf(table, index, frame, PRESENT | WRITABLE)
}

/// The words of a table after entry `index` was made to map `frame` with `flags`: the entry
/// count has gone up by one.
pub open spec fn table_with_leaf(table: Seq<u64>, index: int, frame: u64, flags: u64) -> Seq<u64> {
    let counted = table_with_count(table, (table_count(table) + 1) as u64);
    counted.update(index, word_set(counted[index], frame, flags))
}

/// The words of a table after entry `index` was cleared: the entry count has gone down by
/// one.
pub open spec fn table_without(table: Seq<u64>, index: int) -> Seq<u64> {
    let cleared = table.update(index, word_cleared(table[index]));
    table_with_count(cleared, (table_count(table) - 1) as u64)
}

/// A page table of level `L`: 512 entries.
pub struct Table<L: TableLevel> {
    entries: Vec<Entry>,
    level: PhantomData<L>,
}

impl<L: TableLevel> View for Table<L> {
    type V = Seq<u64>;

    /// The words of the 512 entries.
    closed spec fn view(&self) -> Seq<u64> {
        Seq::new(512, |i: int| self.entries@[i]@)
    }
}

impl<L: TableLevel> Table<L> {
    #[verifier::type_invariant]
    spec fn full(self) -> bool {
        self.entries@.len() == 512
    }

    /// Every table has 512 entries.
    pub broadcast proof fn lemma_len(&self)
        ensures
            #[trigger] self@.len() == 512,
    {
    }

    /// A table whose entries are all zero.
    pub fn new() -> (table: Table<L>)
        ensures
            table@ == zero_table(),
    {
        let mut entries: Vec<Entry> = Vec::new();
        let mut i: usize = 0;
        while i < ENTRY_COUNT
            invariant
                i <= 512,
                entries@.len() == i,
                forall|j: int| 0 <= j < i ==> (#[trigger] entries@[j])@ == 0,
            decreases 512 - i,
        {
            entries.push(Entry::new(0));
            i = i + 1;
        }
        let table = Table { entries, level: PhantomData };
        assert(table@ =~= zero_table());
        table
    }

    /// The same entries, read as a table of another level.
    pub fn cast<M: TableLevel>(self) -> (table: Table<M>)
        ensures
            table@ == self@,
    {
        proof {
            use_type_invariant(&self);
        }
        let table = Table { entries: self.entries, level: PhantomData };
        assert(table@ =~= self@);
        table
    }

    /// The entry `index`, to read it.
    pub fn index(&self, index: usize) -> (entry: &Entry)
        requires
            index < 512,
        ensures
            entry@ == self@[index as int],
    {
        proof {
            use_type_invariant(self);
        }
        &self.entries[index]
    }

    /// The entry `index`, to write it.
    pub fn index_mut(&mut self, index: usize) -> (entry: &mut Entry)
        requires
            index < 512,
        ensures
            entry@ == old(self)@[index as int],
            final(self)@ == old(self)@.update(index as int, final(entry)@),
    {
        proof {
            use_type_invariant(&*self);
        }
        &mut self.entries[index]
    }

    /// Sets every entry to zero, counters included.
    pub fn zero(&mut self)
        ensures
            final(self)@ == zero_table(),
    {
        let mut i: usize = 0;
        while i < ENTRY_COUNT
            invariant
                i <= 512,
                self@.len() == 512,
                forall|j: int| 0 <= j < i ==> (#[trigger] self@[j]) == 0,
            decreases 512 - i,
        {
            self.index_mut(i).set_zero();
            i = i + 1;
        }
        assert(self@ =~= zero_table());
    }

    /// Writes the entry count to the counters of the first four entries, three bits to each.
    pub fn set_entry_count(&mut self, count: usize)
        requires
            count <= 512,
        ensures
            final(self)@ == table_with_count(old(self)@, count as u64),
            table_count(final(self)@) == count,
    {
        let count: u64 = count as u64;
        proof {
            lemma_join_count(count);
            lemma_table_with_count(self@, count);
        }
        self.index_mut(0).set_counter_bits(count & 7);
        self.index_mut(1).set_counter_bits((count >> 3) & 7);
        self.index_mut(2).set_counter_bits((count >> 6) & 7);
        self.index_mut(3).set_counter_bits((count >> 9) & 7);
        assert(self@ =~= table_with_count(old(self)@, count as u64));
    }

    /// Reads the entry count from the counters of the first four entries.
    pub fn entry_count(&self) -> (count: usize)
        ensures
            count == table_count(self@),
    {
        let c0 = self.index(0).counter_bits();
        let c1 = self.index(1).counter_bits();
        let c2 = self.index(2).counter_bits();
        let c3 = self.index(3).counter_bits();
        proof {
            lemma_join_count_range(c0, c1, c2, c3);
        }
        let count: u64 = (((((c3 << 3) | c2) << 3) | c1) << 3) | c0;
        count as usize
    }
}

/// The address at which the recursive mapping shows the table that entry `index` of the
/// table at `table_address` points to.
pub open spec fn next_address(table_address: u64, index: u64) -> u64 {
    (table_address << 9) | (index << 12)
}

impl<L: HierarchicalLevel> Table<L> {
    /// The address of the table of the next level that entry `index` leads to: none where
    /// the entry is not present or maps a huge page.
    pub fn next_table_address(&self, table_address: u64, index: usize) -> (address: Option<u64>)
        requires
            index < 512,
        ensures
            address == if word_leads_on(self@[index as int]) {
                Some(next_address(table_address, index as u64))
            } else {
                None
            },
    {
        let flags = self.index(index).flags();
        proof {
            lemma_word_ranges(self@[index as int]);
        }
        if flags.contains(EntryFlags::present()) && !flags.contains(EntryFlags::huge_page()) {
            Some((table_address << 9) | ((index as u64) << 12))
        } else {
            None
        }
    }

    /// The frame of the table of the next level that entry `index` leads to: none where the
    /// entry is not present or maps a huge page.
    pub fn next_table(&self, index: usize) -> (frame: Option<Frame>)
        requires
            index < 512,
        ensures
            frame is Some <==> word_leads_on(self@[index as int]),
            frame is Some ==> frame->0@ == word_frame(self@[index as int]),
    {
        let entry = self.index(index);
        let flags = entry.flags();
        proof {
            lemma_word_ranges(self@[index as int]);
        }
        if flags.contains(EntryFlags::huge_page()) {
            None
        } else {
            entry.pointed_frame()
        }
    }

    /// The frame of the table of the next level that entry `index` leads to. Where the entry
    /// leads to none yet, a frame is taken from `allocator`, hung into the entry and counted,
    /// and `memory` then holds a table of zeros in it.
    pub fn next_table_create<A: FrameAllocator>(
        &mut self,
        index: usize,
        allocator: &mut A,
        memory: &mut PhysicalMemory,
    ) -> (frame: Frame)
        requires
            index < 512,
            old(allocator).wf(),
            !word_leads_on(old(self)@[index as int]) ==> {
                &&& !word_huge(old(self)@[index as int])
                &&& old(allocator).available() > 0
                &&& old(allocator).frame_limit() <= FRAME_LIMIT
                &&& table_count(old(self)@) < 512
            },
        ensures
            final(allocator).wf(),
            final(allocator).frame_limit() == old(allocator).frame_limit(),
            word_leads_on(old(self)@[index as int]) ==> {
                &&& frame@ == word_frame(old(self)@[index as int])
                &&& final(self)@ == old(self)@
                &&& final(memory)@ == old(memory)@
                &&& final(allocator).free_frames() == old(allocator).free_frames()
                &&& final(allocator).available() == old(allocator).available()
            },
            !word_leads_on(old(self)@[index as int]) ==> {
                &&& old(allocator).free_frames().contains(frame@)
                &&& final(allocator).free_frames() == old(allocator).free_frames().remove(frame@)
                &&& final(allocator).available() == old(allocator).available() - 1
                &&& final(self)@ == table_with_child(old(self)@, index as int, frame@)
                &&& final(memory)@ == old(memory)@.insert(frame@, zero_table())
            },
    {
        broadcast use Table::lemma_len;

        match self.next_table(index) {
            Some(frame) => frame,
            None => {
                let frame = allocator.allocate_frame().unwrap();
                proof {
                    old(allocator).lemma_free_below_limit(frame@);
                    lemma_flag_constants();
                    broadcast use EntryFlags::lemma_spec_from_bits;

                }
                let entry_count = self.entry_count();
                self.set_entry_count(entry_count + 1);
                self.index_mut(index).set(frame.clone(), EntryFlags::present() | EntryFlags::writable());
                let child: Table<L::NextLevel> = Table::new();
                memory.put(&frame, child);
                frame
            },
        }
    }
}

} // verus!
