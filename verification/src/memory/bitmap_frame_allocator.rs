use vstd::prelude::*;
use crate::memory::boot::MemoryArea;
use crate::memory::Frame;
use crate::memory::FrameAllocator;
use crate::memory::FrameIter;

verus! {

/// The most memory that the bitmap covers, in bytes.
pub const MAX_MEM_SIZE: u64 = 0x1_0000_0000;

/// The number of frames that the bitmap covers.
pub const NUM_OF_FRAMES: u64 = 0x10_0000;

/// The number of frames that one word of the bitmap covers.
pub const BITS_PER_BLOCK: u64 = 64;

/// The number of words of the bitmap.
pub const ARRAY_SIZE: usize = 0x4000;

/// Bit `bit` of `word` is set.
pub open spec fn bit_set(word: u64, bit: u64) -> bool {
    word & (1u64 << bit) != 0
}

/// Setting or clearing one bit of a word changes that bit and no other; in a word of ones
/// every bit is set, and in a word of zeros none.
pub proof fn lemma_bits(word: u64, bit: u64, other: u64)
    by (bit_vector)
    requires
        bit < 64,
        other < 64,
    ensures
        bit_set(word | (1u64 << bit), other) == (bit_set(word, other) || other == bit),
        bit_set(word & !(1u64 << bit), other) == (bit_set(word, other) && other != bit),
        word == 0xffff_ffff_ffff_ffff ==> bit_set(word, other),
        !bit_set(0, other),
{
}

/// The lowest clear bit of `word`, for a word that has one.
pub open spec fn lowest_clear_bit(word: u64) -> u64 {
    let w0 = !word;
    let s1 = if w0 & 0xffff_ffff == 0 { 32u64 } else { 0u64 };
    let w1 = w0 >> s1;
    let s2 = if w1 & 0xffff == 0 { 16u64 } else { 0u64 };
    let w2 = w1 >> s2;
    let s3 = if w2 & 0xff == 0 { 8u64 } else { 0u64 };
    let w3 = w2 >> s3;
    let s4 = if w3 & 0xf == 0 { 4u64 } else { 0u64 };
    let w4 = w3 >> s4;
    let s5 = if w4 & 0x3 == 0 { 2u64 } else { 0u64 };
    let w5 = w4 >> s5;
    let s6 = if w5 & 0x1 == 0 { 1u64 } else { 0u64 };
    s1 | s2 | s3 | s4 | s5 | s6
}

/// A word that is not all ones has a clear bit.
pub proof fn lemma_lowest_clear_bit(word: u64)
    by (bit_vector)
    requires
        word != 0xffff_ffff_ffff_ffff,
    ensures
        lowest_clear_bit(word) < 64,
        !bit_set(word, lowest_clear_bit(word)),
{
}

/// The number of the frame that holds the byte at `address`.
pub open spec fn frame_of(address: int) -> int {
    address / 4096
}

/// The end of the area that ends last among the first `n` of `areas`.
pub open spec fn max_end(areas: Seq<MemoryArea>, n: int) -> int
    decreases n,
{
    if n <= 0 {
        0
    } else {
        let end = areas[n - 1].base_addr + areas[n - 1].length;
        if end > max_end(areas, n - 1) {
            end
        } else {
            max_end(areas, n - 1)
        }
    }
}

/// The frame `frame` lies between the end of area `i` and the start of the area after it.
pub open spec fn in_gap_after(areas: Seq<MemoryArea>, i: int, frame: int) -> bool {
    frame_of(areas[i].base_addr + areas[i].length) <= frame <= frame_of(
        areas[i + 1].base_addr - 1,
    )
}

/// The frame `frame` lies between two areas that follow one another among the first
/// `n` of `areas`.
pub open spec fn in_gap(areas: Seq<MemoryArea>, n: int, frame: int) -> bool {
    exists|i: int| 0 <= i < n - 1 && #[trigger] in_gap_after(areas, i, frame)
}

/// The frame `frame` holds a byte of the addresses from `start` to `end`, both included.
pub open spec fn overlaps(start: int, end: int, frame: int) -> bool {
    frame_of(start) <= frame <= frame_of(end)
}

/// The areas can be taken into the bitmap: there is one at least, each ends within the
/// memory that the bitmap covers, and none but the first starts at address 0.
pub open spec fn areas_fit(areas: Seq<MemoryArea>) -> bool {
    &&& areas.len() > 0
    &&& forall|i: int|
        0 <= i < areas.len() ==> (#[trigger] areas[i]).base_addr + areas[i].length < MAX_MEM_SIZE
    &&& forall|i: int| 1 <= i < areas.len() ==> (#[trigger] areas[i]).base_addr >= 1
}

/// The frames that are not to be handed out from the start: the first one behind the usable
/// memory, those between the usable areas, and those that the kernel image or the boot
/// loader's record lie in.
pub open spec fn reserved(
    areas: Seq<MemoryArea>,
    kernel_start: u64,
    kernel_end: u64,
    multiboot_start: u64,
    multiboot_end: u64,
    frame: int,
) -> bool {
    ||| frame == frame_of(max_end(areas, areas.len() as int))
    ||| in_gap(areas, areas.len() as int, frame)
    ||| overlaps(kernel_start as int, kernel_end as int, frame)
    ||| overlaps(multiboot_start as int, multiboot_end as int, frame)
}

/// How many of the frames below `n` are not reserved from the start.
pub open spec fn unreserved_below(
    areas: Seq<MemoryArea>,
    kernel_start: u64,
    kernel_end: u64,
    multiboot_start: u64,
    multiboot_end: u64,
    n: int,
) -> nat
    decreases n,
{
    if n <= 0 {
        0
    } else {
        unreserved_below(areas, kernel_start, kernel_end, multiboot_start, multiboot_end, n - 1)
            + if reserved(areas, kernel_start, kernel_end, multiboot_start, multiboot_end, n - 1) {
            0nat
        } else {
            1nat
        }
    }
}

/// A call of the allocator: `allocate_frame` with what it returned, or `deallocate_frame`
/// with the number of the frame that it was given.
pub enum Call {
    Allocate(Option<u64>),
    Deallocate(u64),
}

/// An allocator that keeps one bit for each frame of the first 4 GiB: the bit is set while
/// the frame is in use, reserved or no memory at all.
pub struct BitmapFrameAllocator {
    bitmap: Vec<u64>,
    second_scan: bool,
    next_frame: u64,
    last_frame: u64,
}

impl BitmapFrameAllocator {
    /// The bit of frame `n` is set. Frames that the bitmap does not cover count as used.
    pub closed spec fn used(&self, n: u64) -> bool {
        n < NUM_OF_FRAMES ==> bit_set(self.bitmap@[(n / 64) as int], n % 64)
    }

    /// The number of the frame at which the next scan starts.
    pub closed spec fn cursor(&self) -> u64 {
        self.next_frame
    }

    /// The number of the first frame behind the usable memory.
    pub closed spec fn last(&self) -> u64 {
        self.last_frame
    }

    /// The scan of a call of `allocate_frame` has started over from frame 0. Between the
    /// calls of `allocate_frame` it has not.
    pub closed spec fn scanned_twice(&self) -> bool {
        self.second_scan
    }

    /// The bitmap has its full length, and the usable memory ends within what it covers.
    pub closed spec fn valid(&self) -> bool {
        &&& self.bitmap@.len() == ARRAY_SIZE
        &&& self.last_frame < NUM_OF_FRAMES
        &&& self.next_frame <= NUM_OF_FRAMES
    }

    /// The usable memory of a valid allocator ends within what the bitmap covers.
    pub proof fn lemma_last_covered(&self)
        requires
            self.valid(),
        ensures
            self.last() < NUM_OF_FRAMES,
    {
    }

    /// The first frame from `lo` on and below `hi` whose bit is clear.
    pub open spec fn first_free(&self, lo: u64, hi: u64) -> Option<u64>
        decreases hi - lo,
    {
        if lo >= hi {
            None
        } else if !self.used(lo) {
            Some(lo)
        } else {
            self.first_free((lo + 1) as u64, hi)
        }
    }

    /// How many frames from `lo` on and below `hi` have a clear bit.
    pub open spec fn count_free(&self, lo: u64, hi: u64) -> nat
        decreases hi - lo,
    {
        if lo >= hi {
            0
        } else {
            self.count_free((lo + 1) as u64, hi) + if self.used(lo) {
                0nat
            } else {
                1nat
            }
        }
    }

    /// The frame that the next call of `allocate_frame` hands out: the first free one from
    /// the cursor on; where there is none, the first free one of all.
    pub open spec fn spec_allocate(&self) -> Option<u64> {
        match self.first_free(self.cursor(), self.last()) {
            Some(n) => Some(n),
            None => self.first_free(0, self.last()),
        }
    }

    /// The bitmap of `other` is that of `self`.
    pub open spec fn same_bits(&self, other: &BitmapFrameAllocator) -> bool {
        forall|m: u64|
            #![trigger other.used(m)]
            #![trigger self.used(m)]
            other.used(m) == self.used(m)
    }

    /// The bitmap of `other` is that of `self` with the bit of frame `n` set to `value`.
    pub open spec fn differs_at(&self, other: &BitmapFrameAllocator, n: u64, value: bool) -> bool {
        forall|m: u64|
            #![trigger other.used(m)]
            #![trigger self.used(m)]
            other.used(m) == if m == n && n < NUM_OF_FRAMES {
                value
            } else {
                self.used(m)
            }
    }

    /// What `first_free` finds is free, lies in the range, and has no free frame before it;
    /// it finds nothing exactly where every frame of the range is used.
    pub proof fn lemma_first_free(&self, lo: u64, hi: u64)
        ensures
            self.first_free(lo, hi) matches Some(n) ==> lo <= n < hi && !self.used(n)
                && self.first_free(lo, n) is None && self.count_free(lo, n) == 0,
            self.first_free(lo, hi) is None <==> forall|m: u64| lo <= m < hi ==> self.used(m),
            self.first_free(lo, hi) is None <==> self.count_free(lo, hi) == 0,
        decreases hi - lo,
    {
        if lo < hi {
            self.lemma_first_free((lo + 1) as u64, hi);
            if self.used(lo) {
                let n = self.first_free(lo, hi);
                if n is Some {
                    assert(self.first_free(lo, n->0) == self.first_free((lo + 1) as u64, n->0));
                }
                assert forall|m: u64| lo <= m < hi && self.first_free(lo, hi) is None implies self.used(
                    m,
                ) by {
                    if m != lo {
                        assert((lo + 1) as u64 <= m);
                    }
                }
            }
        }
    }

    /// The free frames of a range are those of its two parts.
    pub proof fn lemma_count_split(&self, lo: u64, mid: u64, hi: u64)
        requires
            lo <= mid <= hi,
        ensures
            self.count_free(lo, hi) == self.count_free(lo, mid) + self.count_free(mid, hi),
        decreases mid - lo,
    {
        if lo < mid {
            self.lemma_count_split((lo + 1) as u64, mid, hi);
        }
    }

    /// Two bitmaps that agree on a range have the same free frames in it, and one that has
    /// more bits clear has at least as many.
    pub proof fn lemma_count_compare(&self, other: &BitmapFrameAllocator, lo: u64, hi: u64)
        ensures
            (forall|m: u64| lo <= m < hi ==> self.used(m) == other.used(m)) ==> self.count_free(
                lo,
                hi,
            ) == other.count_free(lo, hi) && self.first_free(lo, hi) == other.first_free(lo, hi),
            (forall|m: u64| lo <= m < hi && other.used(m) ==> self.used(m)) ==> self.count_free(
                lo,
                hi,
            ) <= other.count_free(lo, hi),
        decreases hi - lo,
    {
        if lo < hi {
            self.lemma_count_compare(other, (lo + 1) as u64, hi);
        }
    }

    /// An allocator for the memory of `memory_areas`, in which the frames between the areas,
    /// the frames of the kernel image and those of the boot loader's record are reserved.
    /// The scan for free frames starts at frame 1.
    pub fn new(
        kernel_start: u64,
        kernel_end: u64,
        multiboot_start: u64,
        multiboot_end: u64,
        memory_areas: &Vec<MemoryArea>,
    ) -> (allocator: BitmapFrameAllocator)
        requires
            areas_fit(memory_areas@),
            kernel_end < MAX_MEM_SIZE,
            multiboot_end < MAX_MEM_SIZE,
        ensures
            allocator.valid(),
            allocator.last() == frame_of(max_end(memory_areas@, memory_areas@.len() as int)),
            allocator.cursor() == 1,
            !allocator.scanned_twice(),
            forall|n: u64|
                n < NUM_OF_FRAMES ==> #[trigger] allocator.used(n) == reserved(
                    memory_areas@,
                    kernel_start,
                    kernel_end,
                    multiboot_start,
                    multiboot_end,
                    n as int,
                ),
            allocator.spec_available() == unreserved_below(
                memory_areas@,
                kernel_start,
                kernel_end,
                multiboot_start,
                multiboot_end,
                allocator.last() as int,
            ),
    {
        let mut bitmap: Vec<u64> = Vec::new();
        let mut i: usize = 0;
        while i < ARRAY_SIZE
            invariant
                i <= ARRAY_SIZE,
                bitmap@.len() == i,
                forall|j: int| 0 <= j < i ==> #[trigger] bitmap@[j] == 0,
            decreases ARRAY_SIZE - i,
        {
            bitmap.push(0);
            i = i + 1;
        }
        let mut allocator = BitmapFrameAllocator {
            bitmap,
            second_scan: false,
            next_frame: 1,
            last_frame: 0,
        };
        proof {
            assert forall|n: u64| n < NUM_OF_FRAMES implies !(#[trigger] allocator.used(n)) by {
                lemma_bits(0, 0, n % 64);
            }
        }
        allocator.map_memory_areas(memory_areas);
        allocator.map_kernel(kernel_start, kernel_end);
        allocator.map_multiboot(multiboot_start, multiboot_end);
        proof {
            allocator.lemma_unreserved(
                memory_areas@,
                kernel_start,
                kernel_end,
                multiboot_start,
                multiboot_end,
                0,
                allocator.last(),
            );
        }
        allocator
    }

    /// Where the bits that are set are those of the reserved frames, the free frames of a
    /// range are the frames of it that are not reserved.
    proof fn lemma_unreserved(
        &self,
        areas: Seq<MemoryArea>,
        kernel_start: u64,
        kernel_end: u64,
        multiboot_start: u64,
        multiboot_end: u64,
        lo: u64,
        hi: u64,
    )
        requires
            lo <= hi <= NUM_OF_FRAMES,
            forall|n: u64|
                n < NUM_OF_FRAMES ==> #[trigger] self.used(n) == reserved(
                    areas,
                    kernel_start,
                    kernel_end,
                    multiboot_start,
                    multiboot_end,
                    n as int,
                ),
        ensures
            self.count_free(lo, hi) + unreserved_below(
                areas,
                kernel_start,
                kernel_end,
                multiboot_start,
                multiboot_end,
                lo as int,
            ) == unreserved_below(
                areas,
                kernel_start,
                kernel_end,
                multiboot_start,
                multiboot_end,
                hi as int,
            ),
        decreases hi - lo,
    {
        if lo < hi {
            self.lemma_unreserved(
                areas,
                kernel_start,
                kernel_end,
                multiboot_start,
                multiboot_end,
                lo,
                (hi - 1) as u64,
            );
            self.lemma_count_split(lo, (hi - 1) as u64, hi);
            assert(self.count_free(hi, hi) == 0);
        }
    }

    /// Marks the frames from `start` to `end`, both included, as used.
    fn mark_used(&mut self, start: Frame, end: Frame)
        requires
            old(self).valid(),
            end@ < NUM_OF_FRAMES,
        ensures
            final(self).valid(),
            final(self).cursor() == old(self).cursor(),
            final(self).last() == old(self).last(),
            final(self).scanned_twice() == old(self).scanned_twice(),
            forall|m: u64|
                #![trigger final(self).used(m)]
                #![trigger old(self).used(m)]
                final(self).used(m) == (old(self).used(m) || start@ <= m <= end@),
    {
        let ghost first = start@;
        let ghost last = end@;
        let mut frames: FrameIter = Frame::range_inclusive(start, end);
        loop
            invariant
                self.valid(),
                self.cursor() == old(self).cursor(),
                self.last() == old(self).last(),
                self.scanned_twice() == old(self).scanned_twice(),
                last < NUM_OF_FRAMES,
                first == start@,
                last == end@,
                frames@.len() <= last + 1 - first || first > last,
                first > last ==> frames@.len() == 0,
                forall|i: int| 0 <= i < frames@.len() ==> #[trigger] frames@[i] == last + 1
                    - frames@.len() + i,
                forall|m: u64|
                    #![trigger self.used(m)]
                    #![trigger old(self).used(m)]
                    self.used(m) == (old(self).used(m) || first <= m < last + 1 - frames@.len()),
            decreases frames@.len(),
        {
            let ghost before = *self;
            match frames.next() {
                Some(frame) => {
                    self.set_used(frame.number(), true);
                    proof {
                        assert forall|m: u64|
                            #![trigger self.used(m)]
                            #![trigger old(self).used(m)]
                            self.used(m) == (old(self).used(m) || first <= m < last + 1
                                - frames@.len()) by {
                            assert(before.used(m) == (old(self).used(m) || first <= m < frame@));
                        }
                    }
                },
                None => {
                    return ;
                },
            }
        }
    }

    /// Finds the end of the usable memory and reserves the frame behind it and the frames
    /// between the areas.
    pub fn map_memory_areas(&mut self, memory_areas: &Vec<MemoryArea>)
        requires
            old(self).valid(),
            areas_fit(memory_areas@),
        ensures
            final(self).valid(),
            final(self).cursor() == old(self).cursor(),
            final(self).scanned_twice() == old(self).scanned_twice(),
            final(self).last() == frame_of(max_end(memory_areas@, memory_areas@.len() as int)),
            forall|m: u64|
                #![trigger final(self).used(m)]
                #![trigger old(self).used(m)]
                m < NUM_OF_FRAMES ==> final(self).used(m) == (old(self).used(m) || m
                    == final(self).last() || in_gap(
                    memory_areas@,
                    memory_areas@.len() as int,
                    m as int,
                )),
    {
        let mut end: u64 = 0;
        let mut i: usize = 0;
        while i < memory_areas.len()
            invariant
                i <= memory_areas@.len(),
                areas_fit(memory_areas@),
                end == max_end(memory_areas@, i as int),
                end < MAX_MEM_SIZE,
            decreases memory_areas@.len() - i,
        {
            let area = &memory_areas[i];
            let area_end = area.base_addr + area.length;
            if area_end > end {
                end = area_end;
            }
            i = i + 1;
        }
        self.last_frame = Frame::containing_address(end).number();
        self.set_used(self.last_frame, true);
        let ghost marked = *self;
        let mut i: usize = 0;
        let gaps = memory_areas.len() - 1;
        while i < gaps
            invariant
                gaps == memory_areas@.len() - 1,
                i <= gaps,
                areas_fit(memory_areas@),
                self.valid(),
                self.cursor() == old(self).cursor(),
                self.scanned_twice() == old(self).scanned_twice(),
                self.last() == marked.last(),
                forall|m: u64|
                    #![trigger self.used(m)]
                    #![trigger marked.used(m)]
                    m < NUM_OF_FRAMES ==> self.used(m) == (marked.used(m) || in_gap(
                        memory_areas@,
                        i + 1,
                        m as int,
                    )),
            decreases memory_areas@.len() - i,
        {
            let ghost before = *self;
            let area1 = &memory_areas[i];
            let area2 = &memory_areas[i + 1];
            let start_occupied = Frame::containing_address(area1.base_addr + area1.length);
            let end_occupied = Frame::containing_address(area2.base_addr - 1);
            self.mark_used(start_occupied, end_occupied);
            proof {
                assert forall|m: u64|
                    #![trigger self.used(m)]
                    #![trigger marked.used(m)]
                    m < NUM_OF_FRAMES implies self.used(m) == (marked.used(m) || in_gap(
                    memory_areas@,
                    i + 2,
                    m as int,
                )) by {
                    assert(before.used(m) == (marked.used(m) || in_gap(
                        memory_areas@,
                        i + 1,
                        m as int,
                    )));
                    assert(self.used(m) == (before.used(m) || in_gap_after(
                        memory_areas@,
                        i as int,
                        m as int,
                    )));
                    if in_gap(memory_areas@, i + 2, m as int) {
                        let k = choose|k: int|
                            0 <= k < i + 1 && #[trigger] in_gap_after(memory_areas@, k, m as int);
                        if k < i {
                            assert(in_gap(memory_areas@, i + 1, m as int));
                        }
                    }
                }
            }
            i = i + 1;
        }
    }

    /// Reserves the frames that the kernel image lies in.
    pub fn map_kernel(&mut self, kernel_start: u64, kernel_end: u64)
        requires
            old(self).valid(),
            kernel_end < MAX_MEM_SIZE,
        ensures
            final(self).valid(),
            final(self).cursor() == old(self).cursor(),
            final(self).last() == old(self).last(),
            final(self).scanned_twice() == old(self).scanned_twice(),
            forall|m: u64|
                #![trigger final(self).used(m)]
                #![trigger old(self).used(m)]
                final(self).used(m) == (old(self).used(m) || overlaps(
                    kernel_start as int,
                    kernel_end as int,
                    m as int,
                )),
    {
        self.mark_used(
            Frame::containing_address(kernel_start),
            Frame::containing_address(kernel_end),
        );
    }

    /// Reserves the frames that the boot loader's record lies in.
    pub fn map_multiboot(&mut self, multiboot_start: u64, multiboot_end: u64)
        requires
            old(self).valid(),
            multiboot_end < MAX_MEM_SIZE,
        ensures
            final(self).valid(),
            final(self).cursor() == old(self).cursor(),
            final(self).last() == old(self).last(),
            final(self).scanned_twice() == old(self).scanned_twice(),
            forall|m: u64|
                #![trigger final(self).used(m)]
                #![trigger old(self).used(m)]
                final(self).used(m) == (old(self).used(m) || overlaps(
                    multiboot_start as int,
                    multiboot_end as int,
                    m as int,
                )),
    {
        self.mark_used(
            Frame::containing_address(multiboot_start),
            Frame::containing_address(multiboot_end),
        );
    }

    /// The first frame that the word `block_number` of a bitmap stands for.
    pub fn first_frame_in_block(block_number: usize) -> (frame: Frame)
        requires
            block_number * 64 <= u64::MAX / 4096,
        ensures
            frame@ == block_number * 64,
    {
        Frame::from_number((block_number as u64) * BITS_PER_BLOCK)
    }

    /// The last frame that the word `block_number` of a bitmap stands for.
    pub fn last_frame_in_block(block_number: usize) -> (frame: Frame)
        requires
            block_number * 64 + 63 <= u64::MAX / 4096,
        ensures
            frame@ == block_number * 64 + 63,
    {
        Frame::from_number((block_number as u64) * BITS_PER_BLOCK + BITS_PER_BLOCK - 1)
    }

    /// The number of the word of a bitmap that stands for the frame `frame_number`.
    pub fn get_block_number(frame_number: u64) -> (block_number: usize)
        requires
            frame_number / 64 <= usize::MAX,
        ensures
            block_number == frame_number / 64,
    {
        (frame_number / BITS_PER_BLOCK) as usize
    }

    /// Whether every frame of the block `index` is used.
    pub fn block_is_used(&self, index: usize) -> (yes: bool)
        requires
            self.valid(),
            index < ARRAY_SIZE,
        ensures
            yes == (forall|n: u64| index * 64 <= n < index * 64 + 64 ==> self.used(n)),
    {
        let word = self.bitmap[index];
        proof {
            if word == u64::MAX {
                assert forall|n: u64| index * 64 <= n < index * 64 + 64 implies self.used(n) by {
                    lemma_bits(word, 0, n % 64);
                }
            } else {
                lemma_lowest_clear_bit(word);
                let bit = lowest_clear_bit(word);
                let n = (index * 64 + bit) as u64;
                assert(n / 64 == index && n % 64 == bit);
                assert(!self.used(n));
            }
        }
        word == u64::MAX
    }

    /// Whether the frame `index` is used.
    pub fn frame_is_used(&self, index: u64) -> (yes: bool)
        requires
            self.valid(),
            index < NUM_OF_FRAMES,
        ensures
            yes == self.used(index),
    {
        let word = self.bitmap[(index / BITS_PER_BLOCK) as usize];
        (word & (1u64 << (index % BITS_PER_BLOCK))) != 0
    }

    /// The number of the first frame behind the usable memory: frames from it on are neither
    /// handed out nor taken back.
    pub fn last_frame(&self) -> (frame: u64)
        ensures
            frame == self.last(),
    {
        self.last_frame
    }

    /// How many frames are free: as many calls of `allocate_frame` in a row succeed.
    pub fn available_frames(&self) -> (count: u64)
        requires
            self.valid(),
        ensures
            count == self.spec_available(),
    {
        let start: u64 = 0;
        let mut count: u64 = 0;
        let mut frame: u64 = start;
        while frame < self.last_frame
            invariant
                self.valid(),
                start <= frame,
                frame <= self.last() || frame == start,
                count == self.count_free(start, frame),
                count <= frame - start,
            decreases self.last() - frame,
        {
            proof {
                self.lemma_count_split(start, frame, (frame + 1) as u64);
                assert(self.count_free((frame + 1) as u64, (frame + 1) as u64) == 0);
            }
            if !self.frame_is_used(frame) {
                count = count + 1;
            }
            frame = frame + 1;
        }
        count
    }

    /// Marks the frame `index` as used, or as free.
    pub fn set_used(&mut self, index: u64, value: bool)
        requires
            old(self).valid(),
            index < NUM_OF_FRAMES,
        ensures
            final(self).valid(),
            old(self).differs_at(final(self), index, value),
            final(self).cursor() == old(self).cursor(),
            final(self).last() == old(self).last(),
            final(self).scanned_twice() == old(self).scanned_twice(),
    {
        let block = (index / BITS_PER_BLOCK) as usize;
        let bit = index % BITS_PER_BLOCK;
        let word = self.bitmap[block];
        let new_word = if value {
            word | (1u64 << bit)
        } else {
            word & !(1u64 << bit)
        };
        self.bitmap.set(block, new_word);
        proof {
            assert forall|m: u64| #[trigger] self.used(m) == if m == index {
                value
            } else {
                old(self).used(m)
            } by {
                if m < NUM_OF_FRAMES && m / 64 == index / 64 {
                    lemma_bits(word, bit, m % 64);
                }
            }
        }
    }

    /// The first free frame of a range is that of its first part, or where that has none,
    /// that of the rest.
    pub proof fn lemma_first_free_split(&self, lo: u64, mid: u64, hi: u64)
        requires
            lo <= mid <= hi,
        ensures
            self.first_free(lo, hi) == match self.first_free(lo, mid) {
                Some(n) => Some(n),
                None => self.first_free(mid, hi),
            },
        decreases mid - lo,
    {
        if lo < mid {
            self.lemma_first_free_split((lo + 1) as u64, mid, hi);
        }
    }

    /// Every frame of the block `block` is used.
    pub open spec fn block_full(&self, block: int) -> bool {
        forall|n: u64| block * 64 <= n < block * 64 + 64 ==> self.used(n)
    }

    /// Where a scan that finds no free frame leaves the cursor: at the end of the memory,
    /// or, where the block that holds the last frame of the memory is full, behind that
    /// block, which the scan passes over as a whole.
    pub open spec fn scan_end(&self) -> u64 {
        if self.last() == 0 {
            0
        } else if self.block_full((self.last() - 1) / 64) {
            (((self.last() - 1) / 64 + 1) * 64) as u64
        } else {
            self.last()
        }
    }

    /// How many calls of `allocate_frame` in a row succeed: as many as there are free
    /// frames.
    pub open spec fn spec_available(&self) -> nat {
        self.count_free(0, self.last())
    }

    /// Looks for a free frame in the block `block_number`, in which the cursor stands, from
    /// the cursor on. A block of which every frame is used is passed over as a whole.
    fn find_free_frame_in_block(&mut self, block_number: usize) -> (frame: Option<Frame>)
        requires
            old(self).valid(),
            old(self).cursor() < old(self).last(),
            block_number == old(self).cursor() / 64,
        ensures
            final(self).valid(),
            final(self).last() == old(self).last(),
            final(self).scanned_twice() == old(self).scanned_twice(),
            match frame {
                Some(f) => {
                    &&& old(self).first_free(old(self).cursor(), old(self).last()) == Some(f@)
                    &&& old(self).differs_at(final(self), f@, true)
                    &&& final(self).cursor() == f@ + 1
                },
                None => {
                    &&& old(self).same_bits(final(self))
                    &&& old(self).cursor() < final(self).cursor()
                    &&& final(self).cursor() == if old(self).block_full(block_number as int) {
                        block_number * 64 + 64
                    } else if block_number * 64 + 64 < old(self).last() {
                        block_number * 64 + 64
                    } else {
                        old(self).last() as int
                    }
                    &&& old(self).first_free(
                        old(self).cursor(),
                        if final(self).cursor() < old(self).last() {
                            final(self).cursor()
                        } else {
                            old(self).last()
                        },
                    ) is None
                },
            },
    {
        if self.block_is_used(block_number) {
            self.next_frame = Self::first_frame_in_block(block_number + 1).number();
            proof {
                let end = if self.cursor() < self.last() {
                    self.cursor()
                } else {
                    self.last()
                };
                old(self).lemma_first_free(old(self).cursor(), end);
            }
            None
        } else {
            let block_last = Self::last_frame_in_block(block_number).number();
            while self.next_frame <= block_last && self.next_frame < self.last_frame
                invariant
                    self.valid(),
                    self.last() == old(self).last(),
                    self.scanned_twice() == old(self).scanned_twice(),
                    self.bitmap@ == old(self).bitmap@,
                    old(self).valid(),
                    old(self).cursor() <= self.cursor() <= block_last + 1,
                    block_last == block_number * 64 + 63,
                    block_number == old(self).cursor() / 64,
                    old(self).cursor() < old(self).last(),
                    self.cursor() <= self.last(),
                    forall|m: u64| old(self).cursor() <= m < self.cursor() ==> old(self).used(m),
                decreases block_last + 1 - self.next_frame,
            {
                if self.frame_is_used(self.next_frame) {
                    self.next_frame = self.next_frame + 1;
                } else {
                    let frame = Frame::from_number(self.next_frame);
                    proof {
                        old(self).lemma_first_free(old(self).cursor(), frame@);
                        old(self).lemma_first_free_split(
                            old(self).cursor(),
                            frame@,
                            old(self).last(),
                        );
                    }
                    let ghost before = *self;
                    self.set_used(frame.number(), true);
                    self.next_frame = frame.number() + 1;
                    proof {
                        assert(old(self).first_free(old(self).cursor(), old(self).last()) == Some(
                            frame@,
                        ));
                        assert forall|m: u64|
                            #![trigger self.used(m)]
                            #![trigger old(self).used(m)]
                            self.used(m) == if m == frame@ {
                                true
                            } else {
                                old(self).used(m)
                            } by {
                            assert(before.used(m) == old(self).used(m));
                        }
                    }
                    return Some(frame);
                }
            }
            proof {
                let end = if self.cursor() < self.last() {
                    self.cursor()
                } else {
                    self.last()
                };
                old(self).lemma_first_free(old(self).cursor(), end);
            }
            None
        }
    }
}

impl FrameAllocator for BitmapFrameAllocator {
    open spec fn wf(&self) -> bool {
        self.valid()
    }

    open spec fn free_frames(&self) -> Set<u64> {
        Set::new(|n: u64| n < self.last() && !self.used(n))
    }

    open spec fn frame_limit(&self) -> u64 {
        self.last()
    }

    open spec fn available(&self) -> nat {
        self.spec_available()
    }

    proof fn lemma_free_below_limit(&self, n: u64) {
    }

    /// Hands out the first free frame from the cursor on and moves the cursor behind it.
    /// Where the scan reaches the end of memory, it starts over from frame 0 once; where
    /// it reaches the end again without a free frame, there is no frame: every frame is
    /// in use.
    fn allocate_frame(&mut self) -> (frame: Option<Frame>)
        ensures
            BitmapFrameAllocator::allocated(
                old(self),
                final(self),
                match frame {
                    Some(f) => Some(f@),
                    None => None,
                },
            ),
    {
        let ghost mut start = self.next_frame;
        // the two scans are those of this call
        self.second_scan = false;
        loop
            invariant
                self.valid(),
                self.last() == old(self).last(),
                old(self).same_bits(self),
                old(self).valid(),
                self.scanned_twice() ==> start == 0 && old(self).first_free(
                    old(self).cursor(),
                    old(self).last(),
                ) is None,
                !self.scanned_twice() ==> start == old(self).cursor(),
                self.scanned_twice() && self.cursor() >= self.last() ==> self.cursor() == old(
                    self,
                ).scan_end(),
                start <= self.cursor(),
                old(self).first_free(
                    start,
                    if self.cursor() < self.last() {
                        self.cursor()
                    } else {
                        self.last()
                    },
                ) is None,
            decreases
                    (if self.second_scan {
                        0int
                    } else {
                        1int
                    }),
                    NUM_OF_FRAMES + 64 - self.next_frame,
        {
            if self.next_frame < self.last_frame {
                let ghost cursor = self.next_frame;
                let ghost here = *self;
                let block_number = Self::get_block_number(self.next_frame);
                let frame = self.find_free_frame_in_block(block_number);
                proof {
                    old(self).lemma_count_compare(&here, cursor, self.last());
                    let end = if self.cursor() < self.last() {
                        self.cursor()
                    } else {
                        self.last()
                    };
                    old(self).lemma_first_free_split(start, cursor, self.last());
                    if frame is None {
                        old(self).lemma_count_compare(&here, cursor, end);
                        old(self).lemma_first_free_split(start, cursor, end);
                    }
                }
                if frame.is_some() {
                    let ghost found = *self;
                    self.second_scan = false;
                    proof {
                        assert forall|m: u64|
                            #![trigger self.used(m)]
                            #![trigger old(self).used(m)]
                            self.used(m) == if m == frame->0@ && frame->0@ < NUM_OF_FRAMES {
                                true
                            } else {
                                old(self).used(m)
                            } by {
                            assert(self.used(m) == found.used(m));
                            assert(here.used(m) == old(self).used(m));
                        }
                        old(self).lemma_allocated(self, frame->0@, start);
                    }
                    return frame;
                }
            } else if !self.second_scan {
                proof {
                    old(self).lemma_first_free(start, self.last());
                    old(self).lemma_first_free(0, 0);
                    start = 0;
                }
                self.second_scan = true;
                self.next_frame = 0;
            } else {
                self.second_scan = false;
                proof {
                    self.lemma_count_compare(old(self), 0, self.last());
                    old(self).lemma_first_free(0, self.last());
                    old(self).lemma_first_free(old(self).cursor(), self.last());
                }
                return None;
            }
        }
    }

    /// Marks `frame` as free.
    fn deallocate_frame(&mut self, frame: Frame)
        ensures
            BitmapFrameAllocator::deallocated(old(self), final(self), frame@),
    {
        self.set_used(frame.number(), false);
        proof {
            assert(self.free_frames() =~= old(self).free_frames().insert(frame@));
            let n = frame@;
            let last = self.last();
            old(self).lemma_count_split(0, n, last);
            old(self).lemma_count_split(n, (n + 1) as u64, last);
            self.lemma_count_split(0, n, last);
            self.lemma_count_split(n, (n + 1) as u64, last);
            old(self).lemma_count_compare(self, 0, n);
            old(self).lemma_count_compare(self, (n + 1) as u64, last);
            assert(old(self).count_free((n + 1) as u64, (n + 1) as u64) == 0);
            assert(self.count_free((n + 1) as u64, (n + 1) as u64) == 0);
        }
    }
}

impl BitmapFrameAllocator {
    /// After the first free frame of a scan that began at `start` was marked as used, it is
    /// no longer free, and one frame less is free.
    proof fn lemma_allocated(&self, after: &BitmapFrameAllocator, n: u64, start: u64)
        requires
            self.valid(),
            self.last() == after.last(),
            self.differs_at(after, n, true),
            after.cursor() == n + 1,
            self.first_free(start, self.last()) == Some(n),
            start == self.cursor() || (start == 0 && self.first_free(self.cursor(), self.last())
                is None),
        ensures
            Some(n) == self.spec_allocate(),
            after.free_frames() == self.free_frames().remove(n),
            after.spec_available() == self.spec_available() - 1,
            self.free_frames().contains(n),
            self.spec_available() > 0,
    {
        let last = self.last();
        self.lemma_first_free(start, last);
        assert(after.free_frames() =~= self.free_frames().remove(n));
        self.lemma_count_split(start, n, last);
        self.lemma_count_split(n, (n + 1) as u64, last);
        self.lemma_count_compare(after, (n + 1) as u64, last);
        assert(self.count_free((n + 1) as u64, (n + 1) as u64) == 0);
        self.lemma_count_split(0, n, last);
        after.lemma_count_split(0, n, last);
        after.lemma_count_split(n, (n + 1) as u64, last);
        assert(after.count_free((n + 1) as u64, (n + 1) as u64) == 0);
        self.lemma_count_compare(after, 0, n);
    }

    /// What a call of `allocate_frame` that returned `frame` made of the allocator
    /// `before`: where it returned a frame, the bit of that frame is set and the cursor
    /// stands behind it. Where it returned none, every frame of the memory is in use, no
    /// bit has changed, and the cursor stands where the scan ended: at the end of the
    /// memory or behind it, so that the next scan starts over from frame 0.
    pub open spec fn allocated(
        before: &BitmapFrameAllocator,
        after: &BitmapFrameAllocator,
        frame: Option<u64>,
    ) -> bool {
        &&& frame == before.spec_allocate()
        &&& after.valid()
        &&& after.last() == before.last()
        &&& !after.scanned_twice()
        &&& match frame {
            Some(n) => before.differs_at(after, n, true) && after.cursor() == n + 1,
            None => {
                &&& before.same_bits(after)
                &&& forall|m: u64| m < before.last() ==> #[trigger] before.used(m)
                &&& after.cursor() == before.scan_end()
            },
        }
    }

    /// Each state of `states` but the last is followed by the state that a call of
    /// `allocate_frame` made of it, and `frames` holds what the calls returned.
    pub open spec fn allocations(
        states: Seq<BitmapFrameAllocator>,
        frames: Seq<Option<u64>>,
    ) -> bool {
        &&& states.len() == frames.len() + 1
        &&& states[0].valid()
        &&& forall|k: int|
            0 <= k < frames.len() ==> Self::allocated(
                &states[k],
                #[trigger] &states[k + 1],
                frames[k],
            )
    }

    /// What a call of `allocate_frame` returns was free, and is used afterwards; every
    /// frame that was used stays used.
    pub proof fn lemma_allocated_step(
        before: &BitmapFrameAllocator,
        after: &BitmapFrameAllocator,
        frame: Option<u64>,
        n: u64,
    )
        requires
            before.valid(),
            Self::allocated(before, after, frame),
        ensures
            frame matches Some(m) ==> !before.used(m) && after.used(m) && m < before.last(),
            before.used(n) ==> after.used(n) && frame != Some(n),
            after.used(n) && !before.used(n) ==> frame == Some(n),
            match frame {
                Some(m) => after.spec_available() == before.spec_available() - 1,
                None => before.spec_available() == 0 && after.spec_available() == 0,
            },
            frame is None <==> forall|m: u64| m < before.last() ==> #[trigger] before.used(m),
    {
        let last = before.last();
        before.lemma_first_free(before.cursor(), last);
        before.lemma_first_free(0, last);
        match frame {
            Some(m) => {
                let wrapped = before.first_free(before.cursor(), last) is None;
                let start = if wrapped {
                    0
                } else {
                    before.cursor()
                };
                before.lemma_allocated(after, m, start);
            },
            None => {
                before.lemma_count_compare(after, 0, last);
            },
        }
    }

    /// Each state of `states` but the last is followed by the state that the call of that
    /// place in `calls` made of it.
    pub open spec fn run(states: Seq<BitmapFrameAllocator>, calls: Seq<Call>) -> bool {
        &&& states.len() == calls.len() + 1
        &&& states[0].valid()
        &&& forall|k: int|
            0 <= k < calls.len() ==> match calls[k] {
                Call::Allocate(frame) => Self::allocated(
                    &states[k],
                    #[trigger] &states[k + 1],
                    frame,
                ),
                Call::Deallocate(n) => n < states[k].last() && Self::deallocated(
                    &states[k],
                    &states[k + 1],
                    n,
                ),
            }
    }

    /// Every state of a run is valid, with the same end of memory.
    pub proof fn lemma_run_valid(states: Seq<BitmapFrameAllocator>, calls: Seq<Call>, k: int)
        requires
            Self::run(states, calls),
            0 <= k <= calls.len(),
        ensures
            states[k].valid(),
            states[k].last() == states[0].last(),
        decreases k,
    {
        if k > 0 {
            Self::lemma_run_valid(states, calls, k - 1);
            let before = &states[k - 1];
            let after = &states[k - 1 + 1];
            assert(match calls[k - 1] {
                Call::Allocate(frame) => Self::allocated(before, after, frame),
                Call::Deallocate(n) => Self::deallocated(before, after, n),
            });
        }
    }

    /// A frame that is used stays used, and is handed out by no call of `allocate_frame`,
    /// for as long as it is not given back.
    pub proof fn lemma_used_stays(
        states: Seq<BitmapFrameAllocator>,
        calls: Seq<Call>,
        n: u64,
        from: int,
        to: int,
    )
        requires
            Self::run(states, calls),
            0 <= from <= to <= calls.len(),
            states[from].used(n),
            forall|k: int| from <= k < to ==> calls[k] != Call::Deallocate(n),
        ensures
            states[to].used(n),
            forall|k: int| from <= k < to ==> calls[k] != Call::Allocate(Some(n)),
        decreases to - from,
    {
        if from < to {
            Self::lemma_used_stays(states, calls, n, from, to - 1);
            Self::lemma_run_valid(states, calls, to - 1);
            let before = &states[to - 1];
            let after = &states[to - 1 + 1];
            match calls[to - 1] {
                Call::Allocate(frame) => {
                    assert(Self::allocated(before, after, frame));
                    Self::lemma_allocated_step(before, after, frame, n);
                },
                Call::Deallocate(m) => {
                    assert(Self::deallocated(before, after, m));
                    assert(after.used(n));
                },
            }
        }
    }

    /// No double allocation: where two calls of `allocate_frame` hand out the same frame,
    /// a call of `deallocate_frame` has given the frame back between them.
    pub proof fn lemma_no_double_allocation(
        states: Seq<BitmapFrameAllocator>,
        calls: Seq<Call>,
        n: u64,
        i: int,
        j: int,
    )
        requires
            Self::run(states, calls),
            0 <= i < j < calls.len(),
            calls[i] == Call::Allocate(Some(n)),
            calls[j] == Call::Allocate(Some(n)),
        ensures
            exists|k: int| i < k < j && calls[k] == Call::Deallocate(n),
    {
        if forall|k: int| i < k < j ==> calls[k] != Call::Deallocate(n) {
            Self::lemma_run_valid(states, calls, i);
            assert(Self::allocated(&states[i], &states[i + 1], Some(n)));
            Self::lemma_allocated_step(&states[i], &states[i + 1], Some(n), n);
            Self::lemma_used_stays(states, calls, n, i + 1, j + 1);
        }
    }

    /// Initial reservations: no frame that holds a part of the kernel image or of the boot
    /// loader's record, lies between two usable areas or is the first behind the usable
    /// memory is handed out by any call of `allocate_frame` after the allocator was made,
    /// however many calls are made, as long as the frame is not given back.
    pub proof fn lemma_reserved_never_allocated(
        states: Seq<BitmapFrameAllocator>,
        calls: Seq<Call>,
        areas: Seq<MemoryArea>,
        kernel_start: u64,
        kernel_end: u64,
        multiboot_start: u64,
        multiboot_end: u64,
        n: u64,
        j: int,
    )
        requires
            Self::run(states, calls),
            forall|m: u64|
                m < NUM_OF_FRAMES ==> #[trigger] states[0].used(m) == reserved(
                    areas,
                    kernel_start,
                    kernel_end,
                    multiboot_start,
                    multiboot_end,
                    m as int,
                ),
            reserved(areas, kernel_start, kernel_end, multiboot_start, multiboot_end, n as int),
            0 <= j < calls.len(),
            forall|k: int| 0 <= k < j ==> calls[k] != Call::Deallocate(n),
        ensures
            calls[j] != Call::Allocate(Some(n)),
    {
        assert(states[0].used(n));
        Self::lemma_used_stays(states, calls, n, 0, j);
        Self::lemma_run_valid(states, calls, j);
        match calls[j] {
            Call::Allocate(frame) => {
                assert(Self::allocated(&states[j], &states[j + 1], frame));
                Self::lemma_allocated_step(&states[j], &states[j + 1], frame, n);
            },
            Call::Deallocate(_) => {},
        }
    }

    /// Every state of a run of allocations is valid, with the same end of memory.
    pub proof fn lemma_valid_states(
        states: Seq<BitmapFrameAllocator>,
        frames: Seq<Option<u64>>,
        k: int,
    )
        requires
            Self::allocations(states, frames),
            0 <= k <= frames.len(),
        ensures
            states[k].valid(),
            states[k].last() == states[0].last(),
        decreases k,
    {
        if k > 0 {
            Self::lemma_valid_states(states, frames, k - 1);
            assert(Self::allocated(&states[k - 1], &states[k - 1 + 1], frames[k - 1]));
        }
    }

    /// What a call of `deallocate_frame` for the frame `n` made of the allocator `before`:
    /// the bit of the frame is clear, and nothing else has changed.
    pub open spec fn deallocated(
        before: &BitmapFrameAllocator,
        after: &BitmapFrameAllocator,
        n: u64,
    ) -> bool {
        &&& after.valid()
        &&& after.last() == before.last()
        &&& before.differs_at(after, n, false)
        &&& after.cursor() == before.cursor()
        &&& after.scanned_twice() == before.scanned_twice()
    }

    /// Round trip: a frame that was given back is handed out again by one of the calls of
    /// `allocate_frame` that follow, where as many follow as there are free frames, before
    /// another frame is given back.
    pub proof fn lemma_deallocated_frame_returns(
        before: &BitmapFrameAllocator,
        states: Seq<BitmapFrameAllocator>,
        frames: Seq<Option<u64>>,
        n: u64,
    )
        requires
            before.valid(),
            n < before.last(),
            Self::deallocated(before, &states[0], n),
            Self::allocations(states, frames),
            frames.len() >= states[0].spec_available(),
        ensures
            exists|j: int| 0 <= j < frames.len() && frames[j] == Some(n),
    {
        before.lemma_last_covered();
        assert(!states[0].used(n));
        Self::lemma_free_frame_returns(states, frames, n);
    }

    /// Round trip: a frame that is free, as one is that was given back, is handed out again
    /// by one of the calls of `allocate_frame` that follow, where as many follow as there
    /// are free frames.
    pub proof fn lemma_free_frame_returns(
        states: Seq<BitmapFrameAllocator>,
        frames: Seq<Option<u64>>,
        n: u64,
    )
        requires
            Self::allocations(states, frames),
            n < states[0].last(),
            !states[0].used(n),
            frames.len() >= states[0].spec_available(),
        ensures
            exists|j: int| 0 <= j < frames.len() && frames[j] == Some(n),
    {
        Self::lemma_returns_from(states, frames, n, 0);
    }

    /// A frame that is free in a state of a run of allocations is handed out by one of the
    /// calls from that state on, where as many follow as there are free frames.
    pub proof fn lemma_returns_from(
        states: Seq<BitmapFrameAllocator>,
        frames: Seq<Option<u64>>,
        n: u64,
        from: int,
    )
        requires
            Self::allocations(states, frames),
            0 <= from <= frames.len(),
            n < states[0].last(),
            !states[from].used(n),
            frames.len() - from >= states[from].spec_available(),
        ensures
            exists|j: int| from <= j < frames.len() && frames[j] == Some(n),
        decreases states[from].spec_available(),
    {
        let state = states[from];
        Self::lemma_valid_states(states, frames, from);
        let last = state.last();
        state.lemma_first_free(0, last);
        assert(state.count_free(0, last) >= 1);
        Self::lemma_allocated_step(&state, &states[from + 1], frames[from], n);
        if frames[from] != Some(n) {
            Self::lemma_valid_states(states, frames, from + 1);
            Self::lemma_returns_from(states, frames, n, from + 1);
        }
    }

    /// `allocate_frame` hands out no frame exactly where every frame of the memory is in
    /// use, and a frame exactly where one is free: the first free one from the cursor on,
    /// or else the first free one of all.
    pub proof fn lemma_none_is_exhaustion(&self)
        requires
            self.valid(),
        ensures
            self.spec_allocate() is None <==> forall|m: u64| m < self.last() ==> self.used(m),
            self.spec_allocate() is None <==> self.free_frames() == Set::<u64>::empty(),
            self.spec_allocate() is None <==> self.spec_available() == 0,
            self.spec_allocate() matches Some(n) ==> n < self.last() && !self.used(n) && (
            self.cursor() <= n || self.first_free(self.cursor(), self.last()) is None)
                && forall|m: u64|
                (if n >= self.cursor() {
                    self.cursor() <= m < n
                } else {
                    m < n
                }) ==> self.used(m),
    {
        let last = self.last();
        self.lemma_first_free(0, last);
        self.lemma_first_free(self.cursor(), last);
        if self.spec_allocate() is None {
            assert(self.free_frames() =~= Set::<u64>::empty());
        } else {
            let n = self.spec_allocate()->0;
            assert(self.free_frames().contains(n));
            if self.first_free(self.cursor(), last) is Some {
                assert(self.first_free(0, last) is Some) by {
                    if self.first_free(0, last) is None {
                        assert(self.used(n));
                    }
                }
                self.lemma_first_free(self.cursor(), n);
            } else {
                self.lemma_first_free(0, n);
            }
        }
    }

    /// After the allocator was drained, so that a call of `allocate_frame` handed out no
    /// frame, and one frame was given back, the next call hands out that frame, and the
    /// call after it none.
    pub proof fn lemma_given_back_after_exhaustion(
        drained: &BitmapFrameAllocator,
        exhausted: &BitmapFrameAllocator,
        given_back: &BitmapFrameAllocator,
        taken: &BitmapFrameAllocator,
        after: &BitmapFrameAllocator,
        n: u64,
        first: Option<u64>,
        second: Option<u64>,
    )
        requires
            drained.valid(),
            Self::allocated(drained, exhausted, None),
            n < exhausted.last(),
            Self::deallocated(exhausted, given_back, n),
            Self::allocated(given_back, taken, first),
            Self::allocated(taken, after, second),
        ensures
            first == Some(n),
            second is None,
    {
        let last = drained.last();
        drained.lemma_last_covered();
        assert forall|m: u64| m < last implies given_back.used(m) == (m != n) by {
            assert(drained.used(m));
            assert(exhausted.used(m) == drained.used(m));
        }
        given_back.lemma_none_is_exhaustion();
        assert(!given_back.used(n));
        assert(first == Some(n)) by {
            let f = given_back.spec_allocate()->0;
            assert(!given_back.used(f) && f < last);
        }
        assert forall|m: u64| m < last implies taken.used(m) by {
            assert(given_back.used(m) == (m != n));
        }
        taken.lemma_none_is_exhaustion();
    }
}

} // verus!
