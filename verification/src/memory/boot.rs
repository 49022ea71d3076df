use vstd::prelude::*;
use crate::memory::FrameIter;

verus! {

/// Section flag: the section may be written to.
pub const ELF_SECTION_WRITABLE: u64 = 0x1;

/// Section flag: the section is loaded to memory.
pub const ELF_SECTION_ALLOCATED: u64 = 0x2;

/// Section flag: the section holds code.
pub const ELF_SECTION_EXECUTABLE: u64 = 0x4;

/// A flag of a section of the kernel image.
#[derive(Clone, Copy, Debug, PartialEq, Eq, Structural)]
pub enum SectionFlag {
    Writable,
    Allocated,
    Executable,
}

impl SectionFlag {
    /// The bit of the flag in the flags of a section.
    pub open spec fn bit(self) -> u64 {
        match self {
            SectionFlag::Writable => ELF_SECTION_WRITABLE,
            SectionFlag::Allocated => ELF_SECTION_ALLOCATED,
            SectionFlag::Executable => ELF_SECTION_EXECUTABLE,
        }
    }

    /// The bit of the flag in the flags of a section.
    pub fn bits(self) -> (bit: u64)
        ensures
            bit == self.bit(),
    {
        match self {
            SectionFlag::Writable => ELF_SECTION_WRITABLE,
            SectionFlag::Allocated => ELF_SECTION_ALLOCATED,
            SectionFlag::Executable => ELF_SECTION_EXECUTABLE,
        }
    }
}

/// Whether every bit of `other` is set in `flags`. The test is made by
/// `ElfSectionFlags::contains` of the crate multiboot2, on what
/// `ElfSectionFlags::from_bits_retain` makes of the two words. What is taken on trust: that
/// `from_bits_retain` keeps every bit, and that `contains` says whether the bits of its
/// argument are all set.
#[verifier::external_body]
fn section_flags_contain(flags: u64, other: u64) -> (yes: bool)
    ensures
        yes == (flags & other == other),
{
    multiboot2::ElfSectionFlags::from_bits_retain(flags).contains(
        multiboot2::ElfSectionFlags::from_bits_retain(other),
    )
}

/// A stretch of memory that the boot loader reports as usable.
#[derive(Clone, Copy, Debug, PartialEq, Eq, Structural)]
pub struct MemoryArea {
    pub base_addr: u64,
    pub length: u64,
}

/// A section of the kernel image, as the boot loader reports it.
#[derive(Clone, Copy, Debug, PartialEq, Eq, Structural)]
pub struct ElfSection {
    pub addr: u64,
    pub size: u64,
    pub flags: u64,
}

impl ElfSection {
    pub open spec fn spec_flags(&self) -> u64 {
        self.flags
    }

    pub open spec fn spec_is_allocated(&self) -> bool {
        self.flags & ELF_SECTION_ALLOCATED != 0
    }

    #[verifier::when_used_as_spec(spec_flags)]
    pub fn flags(&self) -> (flags: u64)
        ensures
            flags == self.flags,
    {
        self.flags
    }

    /// Whether the section is loaded to memory.
    #[verifier::when_used_as_spec(spec_is_allocated)]
    pub fn is_allocated(&self) -> (yes: bool)
        ensures
            yes == self.spec_is_allocated(),
    {
        self.has(SectionFlag::Allocated)
    }

    /// Whether the section has the flag `flag`.
    pub fn has(&self, flag: SectionFlag) -> (yes: bool)
        ensures
            yes == (self.flags & flag.bit() != 0),
    {
        let bit = flag.bits();
        proof {
            let flags = self.flags;
            assert((flags & bit == bit) == (flags & bit != 0)) by (bit_vector)
                requires
                    bit == 1 || bit == 2 || bit == 4,
            ;
        }
        section_flags_contain(self.flags, bit)
    }

    pub fn start_address(&self) -> (address: u64)
        ensures
            address == self.addr,
    {
        self.addr
    }

    /// The address of the first byte behind the section.
    pub fn end_address(&self) -> (address: u64)
        requires
            self.addr + self.size <= u64::MAX,
        ensures
            address == self.addr + self.size,
    {
        self.addr + self.size
    }
}

/// What the boot loader hands over: where its own record lies, which memory is usable,
/// and the sections of the kernel image.
pub struct BootInformation {
    pub start_address: u64,
    pub end_address: u64,
    pub memory_areas: Vec<MemoryArea>,
    pub elf_sections: Vec<ElfSection>,
}

/// The number of the first page of the section `section`.
pub open spec fn section_first(section: ElfSection) -> int {
    (section.addr / 4096) as int
}

/// The number of the last page of the section `section`.
pub open spec fn section_last(section: ElfSection) -> int {
    (section.addr + section.size - 1) / 4096
}

/// The page `page` holds a part of the section `section`, which is loaded to memory. A
/// section without a byte holds no page.
pub open spec fn in_section(section: ElfSection, page: int) -> bool {
    section.spec_is_allocated() && section.size >= 1 && section_first(section) <= page
        <= section_last(section)
}

/// The page `page` holds a part of section `i` of `sections`, which is loaded to memory.
pub open spec fn in_section_at(sections: Seq<ElfSection>, i: int, page: int) -> bool {
    in_section(sections[i], page)
}

/// The section flags of the section among the first `n` of `sections` that the page `page`
/// lies in, if it lies in one. Where it lies in several, the last of them counts.
pub open spec fn flags_in_sections(sections: Seq<ElfSection>, n: int, page: int) -> Option<u64>
    decreases n,
{
    if n <= 0 {
        None
    } else if in_section(sections[n - 1], page) {
        Some(sections[n - 1].flags)
    } else {
        flags_in_sections(sections, n - 1, page)
    }
}

/// How many pages the loaded sections among the first `n` of `sections` take up.
pub open spec fn pages_in_sections(sections: Seq<ElfSection>, n: int) -> int
    decreases n,
{
    if n <= 0 {
        0
    } else {
        pages_in_sections(sections, n - 1) + if sections[n - 1].spec_is_allocated()
            && sections[n - 1].size >= 1 {
            section_last(sections[n - 1]) - section_first(sections[n - 1]) + 1
        } else {
            0
        }
    }
}

/// The pages of the loaded sections among the first `n` of `sections`, section after
/// section, each in rising order.
pub open spec fn pages_of_sections(sections: Seq<ElfSection>, n: int) -> Seq<u64>
    decreases n,
{
    if n <= 0 {
        Seq::empty()
    } else if sections[n - 1].spec_is_allocated() && sections[n - 1].size >= 1 {
        pages_of_sections(sections, n - 1) + FrameIter::spec_range(
            section_first(sections[n - 1]) as u64,
            section_last(sections[n - 1]) as u64,
        )
    } else {
        pages_of_sections(sections, n - 1)
    }
}

/// The pages of the first sections are the first pages of all sections.
pub proof fn lemma_pages_of_sections(sections: Seq<ElfSection>, n: int, m: int)
    requires
        0 <= n <= m,
    ensures
        pages_of_sections(sections, n).len() <= pages_of_sections(sections, m).len(),
        forall|i: int|
            0 <= i < pages_of_sections(sections, n).len() ==> pages_of_sections(sections, m)[i]
                == #[trigger] pages_of_sections(sections, n)[i],
    decreases m - n,
{
    if n < m {
        lemma_pages_of_sections(sections, n, m - 1);
    }
}

/// The number of the frame of the text buffer of the screen.
pub const VGA_BUFFER_FRAME: u64 = 0xb8;

impl BootInformation {
    /// The number of the first page of the boot loader's record.
    pub open spec fn first_page(&self) -> int {
        (self.start_address / 4096) as int
    }

    /// The number of the last page of the boot loader's record.
    pub open spec fn last_page(&self) -> int {
        (self.end_address - 1) / 4096
    }

    /// The page `page` holds a part of the boot loader's record.
    pub open spec fn in_record(&self, page: int) -> bool {
        self.first_page() <= page <= self.last_page()
    }

    /// How many pages the kernel is mapped with: those of its loaded sections, the text
    /// buffer of the screen and those of the boot loader's record.
    pub open spec fn image_pages(&self) -> int {
        pages_in_sections(self.elf_sections@, self.elf_sections@.len() as int) + 1 + (
        if self.last_page() >= self.first_page() {
            self.last_page() - self.first_page() + 1
        } else {
            0
        })
    }

    /// The pages that the kernel is mapped with, in the order in which they are mapped: those
    /// of the loaded sections, the text buffer of the screen, and those of the boot
    /// loader's record.
    pub open spec fn image_run(&self) -> Seq<u64> {
        pages_of_sections(self.elf_sections@, self.elf_sections@.len() as int).push(
            VGA_BUFFER_FRAME,
        ) + FrameIter::spec_range(self.first_page() as u64, self.last_page() as u64)
    }

    /// What can be mapped as the kernel's image: each loaded section starts at the start of
    /// a page and ends in the lower half of the address space, as does the boot loader's
    /// record; and no page holds a part of two of the sections, the
    /// text buffer of the screen and the record.
    pub open spec fn image_ok(&self) -> bool {
        &&& forall|i: int|
            0 <= i < self.elf_sections@.len() && (#[trigger] self.elf_sections@[i]).spec_is_allocated()
                ==> {
                &&& self.elf_sections@[i].addr % 4096 == 0
                &&& self.elf_sections@[i].addr + self.elf_sections@[i].size <= 0x8000_0000_0000
            }
        &&& forall|i: int, j: int, page: int|
            0 <= i < j < self.elf_sections@.len() && #[trigger] in_section_at(
                self.elf_sections@,
                i,
                page,
            ) ==> !#[trigger] in_section_at(self.elf_sections@, j, page)
        &&& forall|i: int|
            0 <= i < self.elf_sections@.len() ==> !#[trigger] in_section_at(
                self.elf_sections@,
                i,
                VGA_BUFFER_FRAME as int,
            )
        &&& forall|i: int, page: int|
            0 <= i < self.elf_sections@.len() && self.in_record(page) ==> !#[trigger] in_section_at(
                self.elf_sections@,
                i,
                page,
            )
        &&& !self.in_record(VGA_BUFFER_FRAME as int)
        &&& 1 <= self.end_address <= 0x8000_0000_0000
    }

    /// The entry flags with which the kernel's image maps the page `page`, before the flag
    /// for present entries is added: those of its section, writable for the text buffer of
    /// the screen, none for the boot loader's record. None where the image does not hold
    /// the page.
    pub open spec fn image_flags(&self, page: int) -> Option<u64> {
        match flags_in_sections(self.elf_sections@, self.elf_sections@.len() as int, page) {
            Some(flags) => Some(
                crate::memory::paging::entry::EntryFlags::spec_from_elf_section_flags(flags),
            ),
            None => if page == VGA_BUFFER_FRAME {
                Some(crate::memory::paging::entry::WRITABLE)
            } else if self.in_record(page) {
                Some(crate::memory::paging::entry::PRESENT)
            } else {
                None
            },
        }
    }
}

/// A page has section flags among the first `n` sections exactly where it lies in one of
/// them, and the flags are those of a section that it lies in.
pub proof fn lemma_flags_in_sections(sections: Seq<ElfSection>, n: int, page: int)
    requires
        0 <= n <= sections.len(),
    ensures
        flags_in_sections(sections, n, page) is None <==> forall|j: int|
            0 <= j < n ==> !#[trigger] in_section_at(sections, j, page),
        pages_in_sections(sections, n) >= 0,
    decreases n,
{
    if n > 0 {
        lemma_flags_in_sections(sections, n - 1, page);
        if !in_section(sections[n - 1], page) {
            assert forall|j: int| 0 <= j < n && flags_in_sections(
                sections,
                n - 1,
                page,
            ) is None implies !#[trigger] in_section_at(sections, j, page) by {}
        } else {
            assert(in_section_at(sections, n - 1, page));
        }
    }
}

} // verus!
