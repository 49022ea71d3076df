use vstd::prelude::*;
use crate::memory::FrameAllocator;
use crate::memory::paging::entry::PRESENT;
use crate::memory::paging::mapper::lemma_beside_beside;
use crate::memory::paging::mapper::lemma_page_beside;
use crate::memory::paging::mapper::Mapper;
use crate::memory::paging::mapper::page_beside;
use crate::memory::paging::table::table_count;
use crate::memory::paging::tree::Leaf;
use crate::memory::paging::tree::p1_of;
use crate::memory::paging::tree::p2_of;
use crate::memory::paging::tree::p3_of;
use crate::memory::paging::tree::same_table;
use crate::memory::paging::tree::table_there;
use crate::memory::paging::tree::user_page;

verus! {

/// The entry count of the table of level `level` on the way to `page`.
pub open spec fn way_count(mapper: &Mapper, page: u64, level: int) -> u64 {
    let root = mapper.root()->0;
    if level == 3 {
        table_count(mapper.tables()[p3_of(mapper.tables(), root, page)->0])
    } else if level == 2 {
        table_count(mapper.tables()[p2_of(mapper.tables(), root, page)->0])
    } else {
        table_count(mapper.tables()[p1_of(mapper.tables(), root, page)->0])
    }
}

/// Call `i` of a run of calls of `map_to` that map the pages beside `page`, one after the
/// other: it maps the page of index `i` to `frames[i]`.
pub open spec fn filled_at<A: FrameAllocator>(
    states: Seq<Mapper>,
    allocators: Seq<A>,
    page: u64,
    frames: Seq<u64>,
    flags: u64,
    i: int,
) -> bool {
    Mapper::mapped_to(
        &states[i],
        &states[i + 1],
        &allocators[i],
        &allocators[i + 1],
        page_beside(page, i),
        frames[i],
        flags,
    )
}

/// The pages beside a page that can be mapped can be mapped, and have the same tables on
/// their ways.
pub proof fn lemma_beside(page: u64, index: int)
    requires
        user_page(page),
        0 <= index < 512,
    ensures
        user_page(page_beside(page, index)),
        same_table(page_beside(page, index), page, 1),
        same_table(page_beside(page, index), page, 2),
        same_table(page_beside(page, index), page, 3),
        crate::memory::paging::table_index(page_beside(page, index), 1) == index,
{
    lemma_page_beside(page, index as u64);
}

impl Mapper {
    /// Where the pages beside `page` that are mapped are those of the first `k` indices,
    /// `k` of the first `n` are mapped, or all `n`.
    pub proof fn lemma_mapped_first(&self, page: u64, k: int, n: int)
        requires
            0 <= k,
            0 <= n,
            forall|j: int| 0 <= j < n ==> (#[trigger] self.spec_leaf(page_beside(page, j)) is Some) == (j < k),
        ensures
            self.spec_mapped_beside(page, n) == if n < k {
                n
            } else {
                k
            },
        decreases n,
    {
        if n > 0 {
            self.lemma_mapped_first(page, k, n - 1);
        }
    }

    /// Where two of the first `n` pages beside `page` are mapped, two at least are.
    pub proof fn lemma_mapped_two(&self, page: u64, first: int, second: int, n: int)
        requires
            0 <= first < second < n,
            self.spec_leaf(page_beside(page, first)) is Some,
            self.spec_leaf(page_beside(page, second)) is Some,
        ensures
            self.spec_mapped_beside(page, n) >= 2,
        decreases n,
    {
        if n - 1 == second {
            self.lemma_mapped_some(page, first, n - 1);
        } else {
            self.lemma_mapped_two(page, first, second, n - 1);
        }
    }

    /// Where one of the first `n` pages beside `page` is mapped, one at least is.
    pub proof fn lemma_mapped_some(&self, page: u64, index: int, n: int)
        requires
            0 <= index < n,
            self.spec_leaf(page_beside(page, index)) is Some,
        ensures
            self.spec_mapped_beside(page, n) >= 1,
        decreases n,
    {
        if n - 1 != index {
            self.lemma_mapped_some(page, index, n - 1);
        }
    }

    /// Where the page of index `index` beside `page` is mapped and no other of the first
    /// `n`, one is mapped.
    pub proof fn lemma_mapped_single(&self, page: u64, index: int, n: int)
        requires
            0 <= index < n,
            forall|j: int|
                0 <= j < n ==> (#[trigger] self.spec_leaf(page_beside(page, j)) is Some) == (j
                    == index),
        ensures
            self.spec_mapped_beside(page, n) == 1,
        decreases n,
    {
        if n - 1 == index {
            self.lemma_mapped_first(page, 0, n - 1);
        } else {
            self.lemma_mapped_single(page, index, n - 1);
        }
    }

    /// Mappers that agree on which of the pages beside `page` are mapped, but for the one
    /// of index `index`, have as many of them mapped, but for that one.
    pub proof fn lemma_mapped_but_one(&self, other: &Mapper, page: u64, index: int, n: int)
        requires
            0 <= index < n,
            forall|j: int|
                0 <= j < n && j != index ==> (#[trigger] self.spec_leaf(page_beside(page, j)) is Some)
                    == (other.spec_leaf(page_beside(page, j)) is Some),
        ensures
            self.spec_mapped_beside(page, n) - (if self.spec_leaf(page_beside(page, index))
                is Some {
                1int
            } else {
                0int
            }) == other.spec_mapped_beside(page, n) - (if other.spec_leaf(
                page_beside(page, index),
            ) is Some {
                1int
            } else {
                0int
            }),
        decreases n,
    {
        if n - 1 == index {
            self.lemma_mapped_same(other, page, n - 1);
        } else {
            self.lemma_mapped_but_one(other, page, index, n - 1);
        }
    }

    /// Mappers that agree on which of the pages beside `page` are mapped have as many of
    /// them mapped.
    pub proof fn lemma_mapped_same(&self, other: &Mapper, page: u64, n: int)
        requires
            forall|j: int|
                0 <= j < n ==> (#[trigger] self.spec_leaf(page_beside(page, j)) is Some) == (
                other.spec_leaf(page_beside(page, j)) is Some),
        ensures
            self.spec_mapped_beside(page, n) == other.spec_mapped_beside(page, n),
        decreases n,
    {
        if n > 0 {
            self.lemma_mapped_same(other, page, n - 1);
        }
    }
}

/// The leaf that the page of index `j` beside the filled pages has after `n` calls of the
/// run: that of the call that mapped it, or none yet.
pub open spec fn filled_leaf(frames: Seq<u64>, flags: u64, n: int, j: int) -> Option<Leaf> {
    if j < n {
        Some(Leaf { level: 1, frame: frames[j], flags: flags | PRESENT })
    } else {
        None
    }
}

/// A table of level 1 is filled: where none of the three tables on the way to `page` is
/// there and the pages beside `page` are mapped one after the other, `n` of them, the
/// first call makes the three tables and the others none; the table of level 1 then counts
/// `n` entries, 512 when every page is mapped, and the tables of the levels 2 and 3 one
/// each; and every page translates to its frame.
pub proof fn lemma_table_filled<A: FrameAllocator>(
    states: Seq<Mapper>,
    allocators: Seq<A>,
    page: u64,
    frames: Seq<u64>,
    flags: u64,
    n: int,
)
    requires
        1 <= n <= 512,
        states.len() > n,
        allocators.len() > n,
        frames.len() >= n,
        user_page(page),
        states[0].wf(),
        states[0].spec_missing_tables(page) == 3,
        forall|i: int|
            0 <= i < n ==> #[trigger] filled_at(states, allocators, page, frames, flags, i),
    ensures
        states[n].wf(),
        states[n].wf_with(&allocators[n]),
        states[n].root() == states[0].root(),
        allocators[n].available() == allocators[0].available() - 3,
        states[0].table_frames().subset_of(states[n].table_frames()),
        states[n].table_frames() == states[1].table_frames(),
        states[n].table_frames().difference(states[0].table_frames()).len() == 3,
        states[n].table_frames().difference(states[0].table_frames()).subset_of(
            allocators[0].free_frames(),
        ),
        states[n].spec_missing_tables(page) == 0,
        way_count(&states[n], page, 1) == n,
        way_count(&states[n], page, 2) == 1,
        way_count(&states[n], page, 3) == 1,
        forall|j: int|
            0 <= j < 512 ==> #[trigger] states[n].spec_leaf(page_beside(page, j)) == filled_leaf(
                frames,
                flags,
                n,
                j,
            ),
        forall|j: int|
            0 <= j < n ==> #[trigger] states[n].spec_translate_page(page_beside(page, j)) == Some(
                frames[j],
            ),
        n == 512 ==> table_full(&states[n], page),
    decreases n,
{
    let before = &states[n - 1];
    let after = &states[n - 1 + 1];
    let mapped = page_beside(page, n - 1);
    assert(filled_at(states, allocators, page, frames, flags, n - 1));
    lemma_beside(page, n - 1);
    let root = states[0].root()->0;
    if n == 1 {
        assert forall|j: int| 0 <= j < 512 implies #[trigger] before.spec_leaf(
            page_beside(page, j),
        ) is None by {
            lemma_beside(page, j);
        }
    } else {
        lemma_table_filled(states, allocators, page, frames, flags, n - 1);
    }
    assert(before.spec_missing_tables(mapped) == before.spec_missing_tables(page));
    assert(Mapper::tables_made(before, after, &allocators[n - 1], mapped));
    assert(Mapper::upper_kept(before, after, mapped, before.spec_missing_tables(mapped)));
    assert(Mapper::ways_grown(before, after, mapped));
    assert(after.spec_missing_tables(page) == 0) by {
        assert(table_there(after.tables(), after.root()->0, page, 1));
    }
    assert forall|j: int| 0 <= j < 512 implies #[trigger] after.spec_leaf(page_beside(page, j))
        == filled_leaf(frames, flags, n, j) by {
        lemma_beside(page, j);
        if j != n - 1 {
            lemma_beside_beside(page, j as u64, (n - 1) as u64);
            assert(before.spec_leaf(page_beside(page, j)) == filled_leaf(frames, flags, n - 1, j));
        }
    }
    after.lemma_mapped_first(page, n, 512);
    after.lemma_count_of_mapped(page);
    if n == 1 {
        assert(after.spec_emptied_tables(mapped) == 3);
        assert(after.spec_emptied_tables(page) == after.spec_emptied_tables(mapped));
    } else {
        let made = after.table_frames().difference(before.table_frames());
        assert(before.spec_missing_tables(mapped) == 0);
        assert(made == Set::<u64>::empty());
        assert forall|f: u64| after.table_frames().contains(f) implies before.table_frames().contains(
            f,
        ) by {
            if !before.table_frames().contains(f) {
                assert(made.contains(f));
            }
        }
        assert(after.table_frames() =~= before.table_frames());
    }
}

/// Each of the 512 indices of a table stands once in `order`.
pub open spec fn an_order(order: Seq<int>) -> bool {
    &&& order.len() == 512
    &&& forall|i: int| 0 <= i < 512 ==> 0 <= #[trigger] order[i] < 512
    &&& forall|i: int, j: int| 0 <= i < j < 512 ==> #[trigger] order[i] != #[trigger] order[j]
}

/// The index `j` is one of the first `k` of `order`.
pub open spec fn gone_by(order: Seq<int>, k: int, j: int) -> bool {
    exists|i: int| 0 <= i < k && #[trigger] order[i] == j
}

/// Call `i` of a run of calls of `unmap` that take the pages beside `page` away in the
/// order `order`.
pub open spec fn emptied_at<A: FrameAllocator>(
    states: Seq<Mapper>,
    allocators: Seq<A>,
    page: u64,
    order: Seq<int>,
    i: int,
) -> bool {
    Mapper::freed(
        &states[i],
        &states[i + 1],
        &allocators[i],
        &allocators[i + 1],
        page_beside(page, order[i]),
    )
}

/// A table of level 1 that is full, under tables of the levels 2 and 3 that hold one entry
/// each.
pub open spec fn table_full(mapper: &Mapper, page: u64) -> bool {
    &&& user_page(page)
    &&& mapper.wf()
    &&& mapper.spec_missing_tables(page) == 0
    &&& forall|j: int|
        0 <= j < 512 ==> (#[trigger] mapper.spec_leaf(page_beside(page, j))) is Some
            && mapper.spec_leaf(page_beside(page, j))->0.level == 1
    &&& way_count(mapper, page, 2) == 1
    &&& way_count(mapper, page, 3) == 1
}

impl Mapper {
    /// Where none of the first `n` pages beside `page` counts as mapped, none is mapped.
    pub proof fn lemma_mapped_none(&self, page: u64, n: int)
        requires
            self.spec_mapped_beside(page, n) == 0,
        ensures
            forall|j: int| 0 <= j < n ==> (#[trigger] self.spec_leaf(page_beside(page, j))) is None,
        decreases n,
    {
        if n > 0 {
            self.lemma_mapped_none(page, n - 1);
        }
    }

    /// The pages beside a page beside `page` are the pages beside `page`, and as many of
    /// them are mapped.
    pub proof fn lemma_mapped_beside_of(&self, page: u64, index: int, n: int)
        requires
            0 <= index < 512,
            0 <= n <= 512,
        ensures
            self.spec_mapped_beside(page_beside(page, index), n) == self.spec_mapped_beside(
                page,
                n,
            ),
        decreases n,
    {
        if n > 0 {
            self.lemma_mapped_beside_of(page, index, n - 1);
            lemma_beside_beside(page, index as u64, (n - 1) as u64);
        }
    }
}

/// A table of level 1 is emptied, in any order: each of the first 511 calls of `unmap`
/// frees the frame of its page and no table, and lowers the entry count of the table of
/// level 1 by one; the tables above it stay as they are.
pub proof fn lemma_table_emptying<A: FrameAllocator>(
    states: Seq<Mapper>,
    allocators: Seq<A>,
    page: u64,
    order: Seq<int>,
    k: int,
)
    requires
        0 <= k <= 511,
        states.len() > k,
        allocators.len() > k,
        table_full(&states[0], page),
        an_order(order),
        forall|i: int| 0 <= i < k ==> #[trigger] emptied_at(states, allocators, page, order, i),
    ensures
        states[k].wf(),
        states[k].root() == states[0].root(),
        states[k].table_frames() == states[0].table_frames(),
        states[k].spec_missing_tables(page) == 0,
        way_count(&states[k], page, 1) == 512 - k,
        way_count(&states[k], page, 2) == 1,
        way_count(&states[k], page, 3) == 1,
        states[k].spec_mapped_beside(page, 512) == 512 - k,
        p3_of(states[k].tables(), states[k].root()->0, page) == p3_of(
            states[0].tables(),
            states[0].root()->0,
            page,
        ),
        p2_of(states[k].tables(), states[k].root()->0, page) == p2_of(
            states[0].tables(),
            states[0].root()->0,
            page,
        ),
        p1_of(states[k].tables(), states[k].root()->0, page) == p1_of(
            states[0].tables(),
            states[0].root()->0,
            page,
        ),
        forall|j: int|
            0 <= j < 512 ==> #[trigger] states[k].spec_leaf(page_beside(page, j)) == if gone_by(
                order,
                k,
                j,
            ) {
                None
            } else {
                states[0].spec_leaf(page_beside(page, j))
            },
        k >= 1 ==> {
            &&& states[k].table_frames() == states[k - 1].table_frames()
            &&& way_count(&states[k], page, 1) == way_count(&states[k - 1], page, 1) - 1
            &&& allocators[k].free_frames() == allocators[k - 1].free_frames().insert(
                states[k - 1].spec_leaf(page_beside(page, order[k - 1]))->0.frame,
            )
        },
    decreases k,
{
    if k == 0 {
        states[0].lemma_mapped_first(page, 512, 512);
        states[0].lemma_count_of_mapped(page);
    } else {
        lemma_table_emptying(states, allocators, page, order, k - 1);
        let before = &states[k - 1];
        let after = &states[k - 1 + 1];
        let index = order[k - 1];
        let taken = page_beside(page, index);
        assert(emptied_at(states, allocators, page, order, k - 1));
        lemma_beside(page, index);
        assert(!gone_by(order, k - 1, index));
        before.lemma_mapped_beside_of(page, index, 512);
        before.lemma_count_of_mapped(taken);
        assert(before.spec_emptied_tables(taken) == 0);
        assert(Mapper::tables_gone(
            before,
            after,
            &allocators[k - 1],
            &allocators[k - 1 + 1],
            taken,
            false,
        ));
        let gone = before.table_frames().difference(after.table_frames());
        assert(gone == Set::<u64>::empty());
        assert forall|f: u64| before.table_frames().contains(f) implies after.table_frames().contains(
            f,
        ) by {
            if !after.table_frames().contains(f) {
                assert(gone.contains(f));
            }
        }
        assert(after.table_frames() =~= before.table_frames());
        assert(allocators[k].free_frames() =~= allocators[k - 1].free_frames().insert(
            before.spec_leaf(taken)->0.frame,
        ));
        assert(Mapper::upper_kept(before, after, taken, 0));
        assert(after.spec_missing_tables(taken) == 0);
        assert forall|j: int| 0 <= j < 512 implies #[trigger] after.spec_leaf(page_beside(page, j))
            == if gone_by(order, k, j) {
            None
        } else {
            states[0].spec_leaf(page_beside(page, j))
        } by {
            lemma_beside(page, j);
            if j != index {
                lemma_beside_beside(page, j as u64, index as u64);
                assert(after.spec_leaf(page_beside(page, j)) == before.spec_leaf(
                    page_beside(page, j),
                ));
                if gone_by(order, k, j) {
                    let i = choose|i: int| 0 <= i < k && #[trigger] order[i] == j;
                    assert(i < k - 1);
                    assert(gone_by(order, k - 1, j));
                }
            } else {
                assert(order[k - 1] == j);
            }
        }
        before.lemma_mapped_but_one(after, page, index, 512);
        after.lemma_count_of_mapped(page);
    }
}

/// The last page of a table of level 1 that was full is unmapped: the call that follows
/// the 511 others frees the three tables on the way, so that the entry of the root table
/// leads on to none any more.
pub proof fn lemma_table_emptied<A: FrameAllocator>(
    states: Seq<Mapper>,
    allocators: Seq<A>,
    page: u64,
    order: Seq<int>,
)
    requires
        states.len() > 512,
        allocators.len() > 512,
        table_full(&states[0], page),
        an_order(order),
        forall|i: int| 0 <= i < 512 ==> #[trigger] emptied_at(states, allocators, page, order, i),
    ensures
        states[512].wf(),
        states[512].spec_missing_tables(page) == 3,
        states[512].table_frames().subset_of(states[0].table_frames()),
        states[0].table_frames().difference(states[512].table_frames()) == Set::<u64>::empty().insert(
            p1_of(states[0].tables(), states[0].root()->0, page)->0,
        ).insert(p2_of(states[0].tables(), states[0].root()->0, page)->0).insert(
            p3_of(states[0].tables(), states[0].root()->0, page)->0,
        ),
        states[0].table_frames().difference(states[512].table_frames()).len() == 3,
        states[0].table_frames().difference(states[512].table_frames()).subset_of(
            allocators[512].free_frames(),
        ),
        allocators[512].available() == allocators[511].available() + 3 + if allocators[511].free_frames().contains(
            states[511].spec_leaf(page_beside(page, order[511]))->0.frame,
        ) {
            0nat
        } else {
            1nat
        },
        forall|j: int|
            0 <= j < 512 ==> (#[trigger] states[512].spec_leaf(page_beside(page, j))) is None,
{
    lemma_table_emptying(states, allocators, page, order, 511);
    let before = &states[511];
    let after = &states[511int + 1];
    let index = order[511];
    let taken = page_beside(page, index);
    assert(emptied_at(states, allocators, page, order, 511));
    lemma_beside(page, index);
    before.lemma_mapped_beside_of(page, index, 512);
    before.lemma_count_of_mapped(taken);
    assert(before.spec_emptied_tables(taken) == 3);
    assert(Mapper::tables_gone(
        before,
        after,
        &allocators[511],
        &allocators[511int + 1],
        taken,
        false,
    ));
    assert(after.spec_missing_tables(page) == after.spec_missing_tables(taken));
    assert(!gone_by(order, 511, index));
    assert forall|j: int| 0 <= j < 512 && j != index implies (#[trigger] before.spec_leaf(
        page_beside(page, j),
    ) is Some) == (after.spec_leaf(page_beside(page, j)) is Some) by {
        lemma_beside(page, j);
        lemma_beside_beside(page, j as u64, index as u64);
    }
    before.lemma_mapped_but_one(after, page, index, 512);
    after.lemma_mapped_none(page, 512);
}

} // verus!
