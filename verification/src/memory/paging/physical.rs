use vstd::prelude::*;
use std::collections::HashMap;
use crate::memory::Frame;
use crate::memory::paging::table::Level1;
use crate::memory::paging::table::Table;
use crate::memory::paging::table::TableLevel;

verus! {

/// The frames of physical memory that hold page tables, each with the table that it holds.
pub struct PhysicalMemory {
    frames: HashMap<u64, Table<Level1>>,
}

impl View for PhysicalMemory {
    type V = Map<u64, Seq<u64>>;

    /// For the number of each frame that holds a table, the words of its 512 entries.
    closed spec fn view(&self) -> Map<u64, Seq<u64>> {
        Map::new(|n: u64| self.frames@.contains_key(n), |n: u64| self.frames@[n]@)
    }
}

impl PhysicalMemory {
    /// Every table has 512 entries.
    pub broadcast proof fn lemma_tables_full(&self, n: u64)
        requires
            self@.contains_key(n),
        ensures
            #[trigger] self@[n].len() == 512,
    {
        self.frames@[n].lemma_len();
    }

    /// A memory in which no frame holds a table.
    pub fn new() -> (memory: PhysicalMemory)
        ensures
            memory@ == Map::<u64, Seq<u64>>::empty(),
    {
        let memory = PhysicalMemory { frames: HashMap::new() };
        assert(memory@ =~= Map::<u64, Seq<u64>>::empty());
        memory
    }

    /// Whether `frame` holds a table.
    pub fn contains(&self, frame: &Frame) -> (yes: bool)
        ensures
            yes == self@.contains_key(frame@),
    {
        broadcast use vstd::std_specs::hash::group_hash_axioms;

        let number = frame.number();
        self.frames.contains_key(&number)
    }

    /// The table that `frame` holds, to read its entries.
    pub fn table(&self, frame: &Frame) -> (table: Option<&Table<Level1>>)
        ensures
            table is Some <==> self@.contains_key(frame@),
            table is Some ==> table->0@ == self@[frame@],
    {
        broadcast use vstd::std_specs::hash::group_hash_axioms;

        let number = frame.number();
        self.frames.get(&number)
    }

    /// Takes the table that `frame` holds out of the memory, to work on it as a table of
    /// level `L`. The frame then holds no table until one is put back.
    pub fn take<L: TableLevel>(&mut self, frame: &Frame) -> (table: Option<Table<L>>)
        ensures
            final(self)@ == old(self)@.remove(frame@),
            table is Some <==> old(self)@.contains_key(frame@),
            table is Some ==> table->0@ == old(self)@[frame@],
    {
        broadcast use vstd::std_specs::hash::group_hash_axioms;

        let number = frame.number();
        let taken = self.frames.remove(&number);
        assert(self@ =~= old(self)@.remove(frame@));
        match taken {
            Some(table) => Some(table.cast()),
            None => None,
        }
    }

    /// Puts `table` into `frame`, in place of what the frame held.
    pub fn put<L: TableLevel>(&mut self, frame: &Frame, table: Table<L>)
        ensures
            final(self)@ == old(self)@.insert(frame@, table@),
    {
        broadcast use vstd::std_specs::hash::group_hash_axioms;

        let number = frame.number();
        let raw: Table<Level1> = table.cast();
        self.frames.insert(number, raw);
        assert(self@ =~= old(self)@.insert(frame@, table@));
    }
}

} // verus!
