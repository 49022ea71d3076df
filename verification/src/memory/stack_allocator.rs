use vstd::prelude::*;
use crate::memory::FrameAllocator;
use crate::memory::paging::ActivePageTable;
use crate::memory::paging::entry::EntryFlags;
use crate::memory::paging::entry::PRESENT;
use crate::memory::paging::entry::WRITABLE;
use crate::memory::paging::is_page_number;
use crate::memory::paging::mapper::Mapper;
use crate::memory::paging::need::grown_by;
use crate::memory::paging::need::lemma_grown_step;
use crate::memory::paging::need::lemma_missing;
use crate::memory::paging::need::lemma_needed_at_most;
use crate::memory::paging::need::lemma_needed_rises;
use crate::memory::paging::need::tables_needed;
use crate::memory::paging::Page;
use crate::memory::paging::PageIter;
use crate::memory::paging::TlbCommand;
use crate::memory::paging::tree::user_page;

verus! {

/// The last byte of a page that can be mapped lies below the end of the address space, so
/// that the address behind the page can be named.
pub proof fn lemma_page_end(page: u64)
    by (bit_vector)
    requires
        page < 0x8_0000_0000 || 0xf_fff8_0000_0000 <= page <= 0xf_ffff_ffff_ffff,
        (page >> 27) & 0o777 != 511,
    ensures
        page * 4096 + 4096 <= 0xffff_ffff_ffff_ffff,
{
}

/// The commands that flush the pages from `first` on, `count` of them, one after the other.
pub open spec fn flushes(first: u64, count: nat) -> Seq<TlbCommand> {
    Seq::new(count, |i: int| TlbCommand::FlushPage(((first + i) * 4096) as u64))
}

/// What `map_range` does: each page from `first` to `last`, both included, is mapped to a
/// frame of its own that was free, writable as `flags` say; no other page is mapped anew or
/// elsewhere; and the processor is told to flush each of the pages.
pub open spec fn range_mapped<A: FrameAllocator>(
    before: &ActivePageTable,
    after: &ActivePageTable,
    allocator_before: &A,
    allocator_after: &A,
    first: u64,
    last: u64,
    flags: u64,
) -> bool {
    &&& Mapper::kept(&before.mapper, &after.mapper, allocator_before, allocator_after)
    &&& after.mapper.spec_clean()
    &&& forall|q: u64|
        user_page(q) && !(first <= q <= last) ==> #[trigger] after.mapper.spec_leaf(q)
            == before.mapper.spec_leaf(q)
    &&& forall|q: u64|
        first <= q <= last ==> {
            &&& (#[trigger] after.mapper.spec_leaf(q)) is Some
            &&& after.mapper.spec_leaf(q)->0.level == 1
            &&& after.mapper.spec_leaf(q)->0.flags == flags | PRESENT
            &&& allocator_before.free_frames().contains(after.mapper.spec_leaf(q)->0.frame)
            &&& !allocator_after.free_frames().contains(after.mapper.spec_leaf(q)->0.frame)
            &&& !after.mapper.table_frames().contains(after.mapper.spec_leaf(q)->0.frame)
        }
    &&& forall|p: u64, q: u64|
        first <= p < q <= last ==> (#[trigger] after.mapper.spec_leaf(p))->0.frame != (
        #[trigger] after.mapper.spec_leaf(q))->0.frame
    &&& after.commands@ == before.commands@ + flushes(
        first,
        if first <= last {
            (last - first + 1) as nat
        } else {
            0
        },
    )
    &&& allocator_after.free_frames().subset_of(allocator_before.free_frames())
    &&& after.mapper.table_frames().subset_of(
        allocator_before.free_frames().union(before.mapper.table_frames()),
    )
    &&& Mapper::spec_grown_by(&before.mapper, &after.mapper, PageIter::spec_range(first, last))
    &&& allocator_after.available() == allocator_before.available() - range_frames(
        &before.mapper,
        first,
        last,
    )
}

/// How many frames it takes to map the pages from `first` to `last`, both included: one for
/// each page, and one for each table that is missing on the way to them.
pub open spec fn range_frames(mapper: &Mapper, first: u64, last: u64) -> nat {
    mapper.spec_tables_needed(PageIter::spec_range(first, last)) + PageIter::spec_range(
        first,
        last,
    ).len()
}

/// Four frames for each page are enough: one for the page, and three for the tables on the
/// way to it, which are needed where it shares none.
pub proof fn lemma_range_frames_at_most(mapper: &Mapper, first: u64, last: u64)
    ensures
        range_frames(mapper, first, last) <= 4 * PageIter::spec_range(first, last).len(),
{
    let pages = PageIter::spec_range(first, last);
    lemma_needed_at_most(mapper.tables(), mapper.root()->0, pages, pages.len() as int);
}

/// Maps each page from `first` to `last`, both included, to a frame that `allocator` hands
/// out, with `flags`, and has the processor flush each of them.
pub fn map_range<A: FrameAllocator>(
    active_table: &mut ActivePageTable,
    allocator: &mut A,
    first: Page,
    last: Page,
    flags: EntryFlags,
)
    requires
        old(active_table).mapper.wf(),
        old(active_table).mapper.wf_with(old(allocator)),
        old(active_table).mapper.spec_clean(),
        forall|q: u64|
            first@ <= q <= last@ ==> user_page(q) && (#[trigger] old(active_table).mapper.spec_leaf(
                q,
            )) is None,
        old(allocator).available() >= range_frames(&old(active_table).mapper, first@, last@),
    ensures
        range_mapped(
            old(active_table),
            final(active_table),
            old(allocator),
            final(allocator),
            first@,
            last@,
            flags@,
        ),
{
    let ghost low = first@;
    let ghost high = last@;
    let ghost pages = PageIter::spec_range(first@, last@);
    let ghost root = active_table.mapper.root()->0;
    proof {
        Mapper::lemma_kept_same(&active_table.mapper, allocator);
        assert(active_table.commands@ + flushes(low, 0) =~= active_table.commands@);
        if low <= high {
            assert(active_table.mapper.spec_leaf(low) is None);
            assert(active_table.mapper.spec_leaf(high) is None);
        }
    }
    if first.number() > last.number() {
        return ;
    }
    let end = last.number();
    let mut number = first.number();
    while number <= end
        invariant
            low == first@,
            high == last@,
            end == high,
            low <= number <= high + 1,
            is_page_number(low),
            is_page_number(high),
            Mapper::kept(&old(active_table).mapper, &active_table.mapper, old(allocator), allocator),
            active_table.mapper.wf(),
            active_table.mapper.wf_with(allocator),
            active_table.mapper.spec_clean(),
            forall|q: u64|
                low <= q <= high ==> user_page(q) && (#[trigger] old(
                    active_table,
                ).mapper.spec_leaf(q)) is None,
            forall|q: u64|
                user_page(q) && !(low <= q < number) ==> #[trigger] active_table.mapper.spec_leaf(q)
                    == old(active_table).mapper.spec_leaf(q),
            forall|q: u64|
                low <= q < number ==> {
                    &&& (#[trigger] active_table.mapper.spec_leaf(q)) is Some
                    &&& active_table.mapper.spec_leaf(q)->0.level == 1
                    &&& active_table.mapper.spec_leaf(q)->0.flags == flags@ | PRESENT
                    &&& old(allocator).free_frames().contains(
                        active_table.mapper.spec_leaf(q)->0.frame,
                    )
                    &&& !allocator.free_frames().contains(active_table.mapper.spec_leaf(q)->0.frame)
                    &&& !active_table.mapper.table_frames().contains(
                        active_table.mapper.spec_leaf(q)->0.frame,
                    )
                },
            forall|p: u64, q: u64|
                low <= p < q < number ==> (#[trigger] active_table.mapper.spec_leaf(p))->0.frame
                    != (#[trigger] active_table.mapper.spec_leaf(q))->0.frame,
            active_table.commands@ == old(active_table).commands@ + flushes(
                low,
                (number - low) as nat,
            ),
            allocator.free_frames().subset_of(old(allocator).free_frames()),
            active_table.mapper.table_frames().subset_of(
                old(allocator).free_frames().union(old(active_table).mapper.table_frames()),
            ),
            pages == PageIter::spec_range(low, high),
            root == old(active_table).mapper.root()->0,
            grown_by(
                old(active_table).mapper.tables(),
                active_table.mapper.tables(),
                root,
                pages,
                number - low,
            ),
            old(allocator).available() >= tables_needed(
                old(active_table).mapper.tables(),
                root,
                pages,
                pages.len() as int,
            ) + pages.len(),
            allocator.available() == old(allocator).available() - tables_needed(
                old(active_table).mapper.tables(),
                root,
                pages,
                number - low,
            ) - (number - low),
        decreases high + 1 - number,
    {
        let ghost stage = *active_table;
        let ghost allocator_stage = *allocator;
        let ghost k = number - low;
        proof {
            assert(stage.mapper.spec_leaf(number) is None);
            stage.mapper.lemma_clean_mappable(number);
            assert(pages[k] == number);
            lemma_missing(
                old(active_table).mapper.tables(),
                stage.mapper.tables(),
                root,
                pages,
                k,
            );
            lemma_needed_rises(
                old(active_table).mapper.tables(),
                root,
                pages,
                k + 1,
                pages.len() as int,
            );
        }
        let page = Page::from_number(number);
        let result = active_table.mapper.map(page, flags, allocator);
        result.flush(active_table);
        proof {
            Mapper::lemma_kept(
                &old(active_table).mapper,
                &stage.mapper,
                &active_table.mapper,
                old(allocator),
                &allocator_stage,
                allocator,
            );
            assert(active_table.commands@ =~= old(active_table).commands@ + flushes(
                low,
                (number + 1 - low) as nat,
            ));
            assert forall|q: u64| low <= q < number implies active_table.mapper.spec_leaf(q)
                == stage.mapper.spec_leaf(q) by {}
            lemma_grown_step(
                old(active_table).mapper.tables(),
                stage.mapper.tables(),
                active_table.mapper.tables(),
                root,
                pages,
                k,
            );
        }
        if number == end {
            return ;
        }
        number = number + 1;
    }
}

/// A stack of the kernel: the address behind its last byte, and the address of its first.
#[derive(Debug)]
pub struct Stack {
    top: u64,
    bottom: u64,
}

impl Stack {
    #[verifier::type_invariant]
    spec fn grown(self) -> bool {
        self.top > self.bottom
    }

    /// The address behind the last byte of the stack.
    pub closed spec fn spec_top(&self) -> u64 {
        self.top
    }

    /// The address of the first byte of the stack.
    pub closed spec fn spec_bottom(&self) -> u64 {
        self.bottom
    }

    pub fn new(top: u64, bottom: u64) -> (stack: Stack)
        requires
            top > bottom,
        ensures
            stack.spec_top() == top,
            stack.spec_bottom() == bottom,
    {
        Stack { top, bottom }
    }

    #[verifier::when_used_as_spec(spec_top)]
    pub fn top(&self) -> (top: u64)
        ensures
            top == self.spec_top(),
            top > self.spec_bottom(),
    {
        proof {
            use_type_invariant(self);
        }
        self.top
    }

    #[verifier::when_used_as_spec(spec_bottom)]
    pub fn bottom(&self) -> (bottom: u64)
        ensures
            bottom == self.spec_bottom(),
            bottom < self.spec_top(),
    {
        proof {
            use_type_invariant(self);
        }
        self.bottom
    }
}

/// Hands out stacks from a range of pages, each with a page before it that stays unmapped.
pub struct StackAllocator {
    range: PageIter,
}

impl View for StackAllocator {
    type V = Seq<u64>;

    /// The numbers of the pages that are left, in rising order.
    closed spec fn view(&self) -> Seq<u64> {
        self.range@
    }
}

impl StackAllocator {
    /// The pages that are left are a run of pages that can be mapped.
    pub closed spec fn wf(&self) -> bool {
        self.range.all_pages()
    }

    /// The pages that are left are a run of numbers that rise by one.
    pub proof fn lemma_run(&self)
        ensures
            forall|i: int| 0 <= i < self@.len() ==> #[trigger] self@[i] == self@[0] + i,
    {
        self.range.lemma_run();
    }

    pub fn new(page_range: PageIter) -> (stack_allocator: StackAllocator)
        requires
            page_range.all_pages(),
        ensures
            stack_allocator.wf(),
            stack_allocator@ == page_range@,
    {
        StackAllocator { range: page_range }
    }

    /// A stack of `size_in_pages` pages: the first page that is left stays unmapped as a
    /// guard, the pages after it are mapped writable. There is no stack where no page is
    /// asked for or too few are left; nothing is changed then.
    pub fn alloc_stack<A: FrameAllocator>(
        &mut self,
        active_table: &mut ActivePageTable,
        size_in_pages: usize,
        allocator: &mut A,
    ) -> (stack: Option<Stack>)
        requires
            old(self).wf(),
            old(active_table).mapper.wf(),
            old(active_table).mapper.wf_with(old(allocator)),
            old(active_table).mapper.spec_clean(),
            forall|i: int|
                0 <= i < old(self)@.len() ==> user_page(#[trigger] old(self)@[i]) && old(
                    active_table,
                ).mapper.spec_leaf(old(self)@[i]) is None,
            1 <= size_in_pages < old(self)@.len() ==> old(allocator).available() >= range_frames(
                &old(active_table).mapper,
                old(self)@[1],
                old(self)@[size_in_pages as int],
            ),
        ensures
            final(self).wf(),
            stack is Some <==> 1 <= size_in_pages < old(self)@.len(),
            stack matches Some(s) ==> {
                &&& Self::stack_taken(old(self), final(self), size_in_pages as nat, &s)
                &&& final(active_table).mapper.spec_leaf(old(self)@[0]) is None
                &&& range_mapped(
                    old(active_table),
                    final(active_table),
                    old(allocator),
                    final(allocator),
                    old(self)@[1],
                    old(self)@[size_in_pages as int],
                    WRITABLE,
                )
            },
            stack is None ==> {
                &&& final(self)@ == old(self)@
                &&& *final(active_table) == *old(active_table)
                &&& *final(allocator) == *old(allocator)
            },
    {
        if size_in_pages == 0 {
            return None;  /* a zero sized stack makes no sense */
        }
        proof {
            self.range.lemma_run();
        }
        // copy the range, since it is to change on success only
        let mut range = self.range;
        // try to take the stack pages and a guard page
        let guard_page = range.next();
        let stack_start = range.next();
        let stack_end = if size_in_pages == 1 {
            stack_start
        } else {
            // the (size_in_pages-2)th page that is left, since the count starts at 0 and
            // the start page was taken already
            range.nth(size_in_pages - 2)
        };
        match (guard_page, stack_start, stack_end) {
            (Some(_), Some(start), Some(end)) => {
                proof {
                    assert(start@ == old(self)@[1]);
                    assert(end@ == old(self)@[size_in_pages as int]);
                    assert(range@ =~= old(self)@.skip(size_in_pages + 1));
                    assert forall|q: u64| start@ <= q <= end@ implies user_page(q) && (
                    #[trigger] active_table.mapper.spec_leaf(q)) is None by {
                        let i = q - old(self)@[0];
                        assert(old(self)@[i] == q);
                    }
                    assert(user_page(end@));
                    lemma_page_end(end@);
                }
                // success: write back the range that is left
                self.range = range;
                // map the stack pages to frames
                map_range(active_table, allocator, start, end, EntryFlags::writable());
                // create a new stack
                let top_of_stack = end.start_address() + 4096;
                Some(Stack::new(top_of_stack, start.start_address()))
            },
            _ => None,  /* not enough pages */
        }
    }

    /// What `alloc_stack` does where it hands out a stack `stack` of `size_in_pages` pages:
    /// the pages that are left shrink by the guard page and the pages of the stack, and
    /// the stack spans the pages behind the guard page.
    pub open spec fn stack_taken(
        before: &StackAllocator,
        after: &StackAllocator,
        size_in_pages: nat,
        stack: &Stack,
    ) -> bool {
        &&& 1 <= size_in_pages < before@.len()
        &&& stack.spec_bottom() == before@[1] * 4096
        &&& stack.spec_top() == stack.spec_bottom() + size_in_pages * 4096
        &&& after@ == before@.skip(size_in_pages as int + 1)
    }

    /// Two stacks that are handed out one after the other do not overlap, and a page at
    /// least lies between them: the guard page of the second.
    pub proof fn lemma_stacks_apart(
        first: &StackAllocator,
        second: &StackAllocator,
        third: &StackAllocator,
        size_of_first: nat,
        size_of_second: nat,
        first_stack: &Stack,
        second_stack: &Stack,
    )
        requires
            Self::stack_taken(first, second, size_of_first, first_stack),
            Self::stack_taken(second, third, size_of_second, second_stack),
        ensures
            first_stack.spec_top() + 4096 == second_stack.spec_bottom(),
            first_stack.spec_bottom() < first_stack.spec_top(),
            second_stack.spec_bottom() < second_stack.spec_top(),
            second@[0] * 4096 == first_stack.spec_top(),
    {
        first.lemma_run();
        second.lemma_run();
        assert(second@[0] == first@[size_of_first as int + 1]);
        assert(second@[1] == first@[size_of_first as int + 2]);
    }
}

} // verus!
