use vstd::prelude::*;
use crate::memory::boot::ELF_SECTION_ALLOCATED;
use crate::memory::boot::ELF_SECTION_EXECUTABLE;
use crate::memory::boot::ELF_SECTION_WRITABLE;
use crate::memory::boot::ElfSection;
use crate::memory::boot::SectionFlag;
use crate::memory::Frame;

verus! {

/// Bits 12 to 51 of an entry: the address of the frame it points to.
pub const ADDRESS_MASK: u64 = 0x000f_ffff_ffff_f000;

/// Bits 52 to 61 of an entry, which the hardware ignores: a counter of ten bits.
pub const COUNTER_MASK: u64 = 0x3ff0_0000_0000_0000;

/// The bits of an entry that hold flags.
pub const FLAGS_MASK: u64 = 0x8000_0000_0000_01ff;

/// One more than the largest frame number that an entry can hold.
pub const FRAME_LIMIT: u64 = 0x100_0000_0000;

/// One more than the largest value that the counter of an entry can hold.
pub const COUNTER_LIMIT: u64 = 0x400;

/// The entry is in use.
pub const PRESENT: u64 = 0x1;

/// The page may be written to.
pub const WRITABLE: u64 = 0x2;

/// The page may be reached from user mode.
pub const USER_ACCESSIBLE: u64 = 0x4;

/// Writes go through to memory.
pub const WRITE_THROUGH: u64 = 0x8;

/// The page is not cached.
pub const NO_CACHE: u64 = 0x10;

/// The page was read or written.
pub const ACCESSED: u64 = 0x20;

/// The page was written to.
pub const DIRTY: u64 = 0x40;

/// The entry maps a huge page in place of a table.
pub const HUGE_PAGE: u64 = 0x80;

/// The translation survives a switch of address space.
pub const GLOBAL: u64 = 0x100;

/// No code may run from the page.
pub const NO_EXECUTE: u64 = 0x8000_0000_0000_0000;

/// The flags of the entry word `w`.
pub open spec fn word_flags(w: u64) -> u64 {
    w & FLAGS_MASK
}

/// The number of the frame that the entry word `w` holds.
pub open spec fn word_frame(w: u64) -> u64 {
    (w & ADDRESS_MASK) >> 12
}

/// The counter that the entry word `w` holds.
pub open spec fn word_counter(w: u64) -> u64 {
    (w & COUNTER_MASK) >> 52
}

/// The entry word `w` is in use.
pub open spec fn word_present(w: u64) -> bool {
    w & PRESENT != 0
}

/// The entry word `w` is marked as one that maps a huge page.
pub open spec fn word_huge(w: u64) -> bool {
    w & HUGE_PAGE != 0
}

/// The entry word `w` leads to a table of the next level.
pub open spec fn word_leads_on(w: u64) -> bool {
    word_present(w) && !word_huge(w)
}

/// Nothing but the counter is set in the entry word `w`.
pub open spec fn word_unused(w: u64) -> bool {
    w & !COUNTER_MASK == 0
}

/// The entry word `w` made to point to frame `frame` with `flags`; the counter stays.
pub open spec fn word_set(w: u64, frame: u64, flags: u64) -> u64 {
    (frame << 12) | flags | (w & COUNTER_MASK)
}

/// The entry word `w` with everything but the counter cleared.
pub open spec fn word_cleared(w: u64) -> u64 {
    w & COUNTER_MASK
}

/// The entry word `w` with its counter replaced by `count`.
pub open spec fn word_with_counter(w: u64, count: u64) -> u64 {
    (w & !COUNTER_MASK) | (count << 52)
}

/// What `word_set` leaves in the word: the frame, the flags and the old counter.
pub proof fn lemma_word_set(w: u64, frame: u64, flags: u64)
    by (bit_vector)
    requires
        frame < FRAME_LIMIT,
        flags & !FLAGS_MASK == 0,
    ensures
        word_frame(word_set(w, frame, flags)) == frame,
        word_flags(word_set(w, frame, flags)) == flags,
        word_counter(word_set(w, frame, flags)) == word_counter(w),
        word_present(word_set(w, frame, flags)) == (flags & PRESENT != 0),
        word_huge(word_set(w, frame, flags)) == (flags & HUGE_PAGE != 0),
        frame << 12 == frame * 4096,
{
}

/// What `word_cleared` leaves in the word: the old counter and nothing else.
pub proof fn lemma_word_cleared(w: u64)
    by (bit_vector)
    ensures
        word_unused(word_cleared(w)),
        word_frame(word_cleared(w)) == 0,
        word_flags(word_cleared(w)) == 0,
        word_counter(word_cleared(w)) == word_counter(w),
        !word_present(word_cleared(w)),
        !word_huge(word_cleared(w)),
{
}

/// What `word_with_counter` leaves in the word: the new counter, the old frame and flags.
pub proof fn lemma_word_with_counter(w: u64, count: u64)
    by (bit_vector)
    requires
        count < COUNTER_LIMIT,
    ensures
        word_counter(word_with_counter(w, count)) == count,
        word_frame(word_with_counter(w, count)) == word_frame(w),
        word_flags(word_with_counter(w, count)) == word_flags(w),
        word_present(word_with_counter(w, count)) == word_present(w),
        word_huge(word_with_counter(w, count)) == word_huge(w),
        word_unused(word_with_counter(w, count)) == word_unused(w),
        word_with_counter(w, count) & !COUNTER_MASK == w & !COUNTER_MASK,
{
}

/// The ranges of what a word holds, and what holds of a word that is unused or zero.
pub proof fn lemma_word_ranges(w: u64)
    by (bit_vector)
    ensures
        word_frame(w) < FRAME_LIMIT,
        word_counter(w) < COUNTER_LIMIT,
        word_flags(w) & !FLAGS_MASK == 0,
        word_frame(w) == (w & ADDRESS_MASK) / 4096,
        word_present(w) == (word_flags(w) & PRESENT == PRESENT),
        word_huge(w) == (word_flags(w) & HUGE_PAGE == HUGE_PAGE),
        word_unused(w) == (w == w & COUNTER_MASK),
        word_unused(w) ==> !word_present(w) && !word_huge(w) && word_frame(w) == 0 && word_flags(w)
            == 0,
        word_counter(0) == 0 && word_unused(0),
{
}

/// An entry reads back what was written to it. After `set` it names the frame and has the
/// flags that were given, and it is present exactly where the flags say so. The counter
/// reads back what was written to it, and outlasts `set` and `set_unused`; writing the
/// counter changes neither frame nor flags.
pub proof fn lemma_entry_encoding(word: u64, frame: u64, flags: u64, count: u64)
    requires
        frame < FRAME_LIMIT,
        flags & !FLAGS_MASK == 0,
        count < COUNTER_LIMIT,
    ensures
        word_frame(word_set(word, frame, flags)) == frame,
        word_flags(word_set(word, frame, flags)) == flags,
        word_present(word_set(word, frame, flags)) == (flags & PRESENT != 0),
        word_counter(word_with_counter(word, count)) == count,
        word_counter(word_set(word_with_counter(word, count), frame, flags)) == count,
        word_counter(word_cleared(word_with_counter(word, count))) == count,
        word_frame(word_with_counter(word_set(word, frame, flags), count)) == frame,
        word_flags(word_with_counter(word_set(word, frame, flags), count)) == flags,
        word_unused(word_cleared(word)),
{
    lemma_word_set(word, frame, flags);
    lemma_word_with_counter(word, count);
    lemma_word_set(word_with_counter(word, count), frame, flags);
    lemma_word_cleared(word_with_counter(word, count));
    lemma_word_with_counter(word_set(word, frame, flags), count);
    lemma_word_cleared(word);
}

/// Each flag is one of the flag bits of a word.
pub proof fn lemma_flag_constants()
    by (bit_vector)
    ensures
        PRESENT & !FLAGS_MASK == 0 && PRESENT & FLAGS_MASK == PRESENT,
        WRITABLE & !FLAGS_MASK == 0 && WRITABLE & FLAGS_MASK == WRITABLE,
        USER_ACCESSIBLE & !FLAGS_MASK == 0,
        WRITE_THROUGH & !FLAGS_MASK == 0,
        NO_CACHE & !FLAGS_MASK == 0,
        ACCESSED & !FLAGS_MASK == 0,
        DIRTY & !FLAGS_MASK == 0,
        HUGE_PAGE & !FLAGS_MASK == 0 && HUGE_PAGE & FLAGS_MASK == HUGE_PAGE,
        GLOBAL & !FLAGS_MASK == 0,
        NO_EXECUTE & !FLAGS_MASK == 0 && NO_EXECUTE & FLAGS_MASK == NO_EXECUTE,
        0u64 & !FLAGS_MASK == 0,
        (PRESENT | WRITABLE) & !FLAGS_MASK == 0,
{
}

/// A set of flags of a page-table entry.
#[derive(Clone, Copy, Debug, PartialEq, Eq, Structural)]
pub struct EntryFlags {
    bits: u64,
}

impl View for EntryFlags {
    type V = u64;

    /// The flags as bits of an entry word.
    closed spec fn view(&self) -> u64 {
        self.bits
    }
}

impl EntryFlags {
    #[verifier::type_invariant]
    spec fn only_flags(self) -> bool {
        self.bits & !FLAGS_MASK == 0
    }

    /// The set with the bits `bits`, of which all are flags.
    pub closed spec fn spec_from_bits(bits: u64) -> EntryFlags {
        EntryFlags { bits }
    }

    pub broadcast proof fn lemma_spec_from_bits(bits: u64)
        ensures
            (#[trigger] Self::spec_from_bits(bits))@ == bits,
    {
    }

    /// Two sets with the same bits are the same set.
    pub proof fn lemma_view_injective(a: EntryFlags, b: EntryFlags)
        requires
            a@ == b@,
        ensures
            a == b,
    {
    }

    pub open spec fn spec_contains(&self, other: EntryFlags) -> bool {
        self@ & other@ == other@
    }

    pub fn empty() -> (flags: EntryFlags)
        ensures
            flags@ == 0,
    {
        proof {
            lemma_flag_constants();
        }
        EntryFlags { bits: 0 }
    }

    /// The entry is in use.
    pub fn present() -> (flags: EntryFlags)
        ensures
            flags@ == PRESENT,
    {
        proof {
            lemma_flag_constants();
        }
        EntryFlags { bits: PRESENT }
    }

    /// The page may be written to.
    pub fn writable() -> (flags: EntryFlags)
        ensures
            flags@ == WRITABLE,
    {
        proof {
            lemma_flag_constants();
        }
        EntryFlags { bits: WRITABLE }
    }

    /// The page may be reached from user mode.
    pub fn user_accessible() -> (flags: EntryFlags)
        ensures
            flags@ == USER_ACCESSIBLE,
    {
        proof {
            lemma_flag_constants();
        }
        EntryFlags { bits: USER_ACCESSIBLE }
    }

    /// Writes go through to memory.
    pub fn write_through() -> (flags: EntryFlags)
        ensures
            flags@ == WRITE_THROUGH,
    {
        proof {
            lemma_flag_constants();
        }
        EntryFlags { bits: WRITE_THROUGH }
    }

    /// The page is not cached.
    pub fn no_cache() -> (flags: EntryFlags)
        ensures
            flags@ == NO_CACHE,
    {
        proof {
            lemma_flag_constants();
        }
        EntryFlags { bits: NO_CACHE }
    }

    /// The page was read or written.
    pub fn accessed() -> (flags: EntryFlags)
        ensures
            flags@ == ACCESSED,
    {
        proof {
            lemma_flag_constants();
        }
        EntryFlags { bits: ACCESSED }
    }

    /// The page was written to.
    pub fn dirty() -> (flags: EntryFlags)
        ensures
            flags@ == DIRTY,
    {
        proof {
            lemma_flag_constants();
        }
        EntryFlags { bits: DIRTY }
    }

    /// The entry maps a huge page in place of a table.
    pub fn huge_page() -> (flags: EntryFlags)
        ensures
            flags@ == HUGE_PAGE,
    {
        proof {
            lemma_flag_constants();
        }
        EntryFlags { bits: HUGE_PAGE }
    }

    /// The translation survives a switch of address space.
    pub fn global() -> (flags: EntryFlags)
        ensures
            flags@ == GLOBAL,
    {
        proof {
            lemma_flag_constants();
        }
        EntryFlags { bits: GLOBAL }
    }

    /// No code may run from the page.
    pub fn no_execute() -> (flags: EntryFlags)
        ensures
            flags@ == NO_EXECUTE,
    {
        proof {
            lemma_flag_constants();
        }
        EntryFlags { bits: NO_EXECUTE }
    }

    /// The flags among `bits`; bits that are no flags are dropped.
    pub fn from_bits_truncate(bits: u64) -> (flags: EntryFlags)
        ensures
            flags@ == bits & FLAGS_MASK,
    {
        assert((bits & FLAGS_MASK) & !FLAGS_MASK == 0) by (bit_vector);
        EntryFlags { bits: bits & FLAGS_MASK }
    }

    pub fn bits(&self) -> (bits: u64)
        ensures
            bits == self@,
            bits & !FLAGS_MASK == 0,
    {
        proof {
            use_type_invariant(self);
        }
        self.bits
    }

    /// Whether every flag of `other` is in this set.
    #[verifier::when_used_as_spec(spec_contains)]
    pub fn contains(&self, other: EntryFlags) -> (yes: bool)
        ensures
            yes == self.spec_contains(other),
    {
        (self.bits & other.bits) == other.bits
    }

    /// The flags with which a section of the kernel image is mapped: present where it is
    /// loaded, writable where it is writable, not executable unless it holds code.
    pub fn from_elf_section_flags(section: &ElfSection) -> (flags: EntryFlags)
        ensures
            flags@ == Self::spec_from_elf_section_flags(section.spec_flags()),
    {
        let ghost section_flags = section.spec_flags();
        let mut flags = EntryFlags::empty();
        if section.has(SectionFlag::Allocated) {
            // the section is loaded to memory
            flags = flags | EntryFlags::present();
        }
        if section.has(SectionFlag::Writable) {
            flags = flags | EntryFlags::writable();
        }
        if !section.has(SectionFlag::Executable) {
            flags = flags | EntryFlags::no_execute();
        }
        proof {
            let s = section_flags;
            let a: u64 = if s & ELF_SECTION_ALLOCATED != 0 { 0 | PRESENT } else { 0 };
            let b: u64 = if s & ELF_SECTION_WRITABLE != 0 { a | WRITABLE } else { a };
            let c: u64 = if s & ELF_SECTION_EXECUTABLE == 0 { b | NO_EXECUTE } else { b };
            assert(flags@ == c);
            assert(c == Self::spec_from_elf_section_flags(s)) by (bit_vector)
                requires
                    a == if s & ELF_SECTION_ALLOCATED != 0 { 0 | PRESENT } else { 0 },
                    b == if s & ELF_SECTION_WRITABLE != 0 { a | WRITABLE } else { a },
                    c == if s & ELF_SECTION_EXECUTABLE == 0 { b | NO_EXECUTE } else { b },
            ;
        }
        flags
    }

    /// The entry flags for a section with the section flags `section_flags`.
    pub open spec fn spec_from_elf_section_flags(section_flags: u64) -> u64 {
        (if section_flags & ELF_SECTION_ALLOCATED != 0 { PRESENT } else { 0 })
        | (if section_flags & ELF_SECTION_WRITABLE != 0 { WRITABLE } else { 0 })
        | (if section_flags & ELF_SECTION_EXECUTABLE == 0 { NO_EXECUTE } else { 0 })
    }
}

impl core::ops::BitOr for EntryFlags {
    type Output = EntryFlags;

    /// The flags of both sets.
    fn bitor(self, other: EntryFlags) -> (flags: EntryFlags) {
        proof {
            use_type_invariant(&self);
            use_type_invariant(&other);
            let a = self.bits;
            let b = other.bits;
            assert((a | b) & !FLAGS_MASK == 0) by (bit_vector)
                requires
                    a & !FLAGS_MASK == 0,
                    b & !FLAGS_MASK == 0,
            ;
        }
        EntryFlags { bits: self.bits | other.bits }
    }
}

impl vstd::std_specs::ops::BitOrSpecImpl for EntryFlags {
    open spec fn obeys_bitor_spec() -> bool {
        true
    }

    open spec fn bitor_req(self, other: EntryFlags) -> bool {
        true
    }

    open spec fn bitor_spec(self, other: EntryFlags) -> EntryFlags {
        EntryFlags::spec_from_bits(self@ | other@)
    }
}

/// One entry of a page table: a word of 64 bits.
pub struct Entry(u64);

impl View for Entry {
    type V = u64;

    /// The word that the entry holds.
    closed spec fn view(&self) -> u64 {
        self.0
    }
}

impl Entry {
    /// An entry that holds the word `word`.
    pub fn new(word: u64) -> (entry: Entry)
        ensures
            entry@ == word,
    {
        Entry(word)
    }

    /// The word that the entry holds.
    pub fn bits(&self) -> (word: u64)
        ensures
            word == self@,
    {
        self.0
    }

    /// Clears the whole entry, counter included.
    pub fn set_zero(&mut self)
        ensures
            final(self)@ == 0,
    {
        self.0 = 0;
    }

    /// Whether nothing but the counter is set.
    pub fn is_unused(&self) -> (unused: bool)
        ensures
            unused == word_unused(self@),
    {
        proof {
            lemma_word_ranges(self.0);
        }
        self.0 == self.0 & COUNTER_MASK
    }

    /// Clears everything but the counter.
    pub fn set_unused(&mut self)
        ensures
            final(self)@ == word_cleared(old(self)@),
    {
        self.0 = self.0 & COUNTER_MASK;
    }

    /// The flags of the entry.
    pub fn flags(&self) -> (flags: EntryFlags)
        ensures
            flags@ == word_flags(self@),
    {
        EntryFlags::from_bits_truncate(self.0)
    }

    /// The frame that the entry points to; none where the entry is not present.
    pub fn pointed_frame(&self) -> (frame: Option<Frame>)
        ensures
            frame is Some <==> word_present(self@),
            frame is Some ==> frame->0@ == word_frame(self@),
    {
        proof {
            lemma_word_ranges(self.0);
        }
        if self.flags().contains(EntryFlags::present()) {
            Some(Frame::containing_address(self.0 & ADDRESS_MASK))
        } else {
            None
        }
    }

    /// Makes the entry point to `frame` with `flags`; the counter stays.
    pub fn set(&mut self, frame: Frame, flags: EntryFlags)
        requires
            frame@ < FRAME_LIMIT,
        ensures
            final(self)@ == word_set(old(self)@, frame@, flags@),
    {
        proof {
            use_type_invariant(&flags);
            lemma_word_set(self.0, frame@, flags@);
        }
        self.0 = frame.start_address() | flags.bits() | (self.0 & COUNTER_MASK);
    }

    /// The counter of the entry: the ten bits from bit 52 on, which the hardware ignores.
    pub fn counter_bits(&self) -> (count: u64)
        ensures
            count == word_counter(self@),
            count < COUNTER_LIMIT,
    {
        proof {
            lemma_word_ranges(self.0);
        }
        (self.0 & COUNTER_MASK) >> 52
    }

    /// Writes the counter of the entry; frame and flags stay.
    pub fn set_counter_bits(&mut self, count: u64)
        requires
            count < COUNTER_LIMIT,
        ensures
            final(self)@ == word_with_counter(old(self)@, count),
    {
        self.0 = (self.0 & !COUNTER_MASK) | (count << 52);
    }
}

} // verus!
