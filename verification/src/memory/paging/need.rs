use vstd::prelude::*;
use crate::memory::paging::entry::lemma_word_ranges;
use crate::memory::paging::lemma_table_indices;
use crate::memory::paging::mapper::missing_tables;
use crate::memory::paging::mapper::RECURSIVE_INDEX;
use crate::memory::paging::table::zero_table;
use crate::memory::paging::tree::leaf;
use crate::memory::paging::tree::same_table;
use crate::memory::paging::tree::table_there;
use crate::memory::paging::tree::Tables;
use crate::memory::paging::tree::user_page;

verus! {

/// One of the first `k` pages of `pages` has the same table of level `level` on its way as
/// `page`.
pub open spec fn shared_before(pages: Seq<u64>, k: int, page: u64, level: int) -> bool
    decreases k,
{
    k > 0 && (same_table(page, pages[k - 1], level) || shared_before(pages, k - 1, page, level))
}

/// Whether a table of level `level` is to be made for page `k` of `pages`, once the pages
/// before it are mapped: 1 where the table is neither there nor made for one of those.
pub open spec fn table_for(tables: Tables, root: u64, pages: Seq<u64>, k: int, level: int) -> nat {
    if !table_there(tables, root, pages[k], level) && !shared_before(pages, k, pages[k], level) {
        1
    } else {
        0
    }
}

/// How many tables are to be made for page `k` of `pages`, once the pages before it are
/// mapped.
pub open spec fn tables_for(tables: Tables, root: u64, pages: Seq<u64>, k: int) -> nat {
    table_for(tables, root, pages, k, 3) + table_for(tables, root, pages, k, 2) + table_for(
        tables,
        root,
        pages,
        k,
        1,
    )
}

/// How many tables are to be made to map the first `n` pages of `pages`, one after the
/// other, in the tables under `root`.
pub open spec fn tables_needed(tables: Tables, root: u64, pages: Seq<u64>, n: int) -> nat
    decreases n,
{
    if n <= 0 {
        0
    } else {
        tables_needed(tables, root, pages, n - 1) + tables_for(tables, root, pages, n - 1)
    }
}

/// The tables on the ways in `after` are those of `before` and those on the ways to the
/// first `k` pages of `pages`.
pub open spec fn grown_by(before: Tables, after: Tables, root: u64, pages: Seq<u64>, k: int) -> bool {
    forall|other: u64, level: int|
        user_page(other) && 1 <= level <= 3 ==> #[trigger] table_there(after, root, other, level)
            == (table_there(before, root, other, level) || shared_before(pages, k, other, level))
}

/// Mapping one more page of `pages` adds the tables on its way.
pub proof fn lemma_grown_step(
    before: Tables,
    current: Tables,
    next: Tables,
    root: u64,
    pages: Seq<u64>,
    k: int,
)
    requires
        0 <= k < pages.len(),
        grown_by(before, current, root, pages, k),
        forall|other: u64, level: int|
            user_page(other) && 1 <= level <= 3 ==> #[trigger] table_there(
                next,
                root,
                other,
                level,
            ) == (table_there(current, root, other, level) || same_table(other, pages[k], level)),
    ensures
        grown_by(before, next, root, pages, k + 1),
{
    assert forall|other: u64, level: int|
        user_page(other) && 1 <= level <= 3 implies #[trigger] table_there(
        next,
        root,
        other,
        level,
    ) == (table_there(before, root, other, level) || shared_before(pages, k + 1, other, level)) by {
        assert(table_there(current, root, other, level) == (table_there(
            before,
            root,
            other,
            level,
        ) || shared_before(pages, k, other, level)));
    }
}

/// The tables that are missing on the way to page `k`, once the pages before it are
/// mapped, are those that are to be made for it.
pub proof fn lemma_missing(before: Tables, current: Tables, root: u64, pages: Seq<u64>, k: int)
    requires
        0 <= k < pages.len(),
        user_page(pages[k]),
        grown_by(before, current, root, pages, k),
    ensures
        missing_tables(current, root, pages[k]) == tables_for(before, root, pages, k),
{
    let page = pages[k];
    assert(table_there(current, root, page, 3) == (table_there(before, root, page, 3)
        || shared_before(pages, k, page, 3)));
    assert(table_there(current, root, page, 2) == (table_there(before, root, page, 2)
        || shared_before(pages, k, page, 2)));
    assert(table_there(current, root, page, 1) == (table_there(before, root, page, 1)
        || shared_before(pages, k, page, 1)));
}

/// The more pages, the more tables.
pub proof fn lemma_needed_rises(tables: Tables, root: u64, pages: Seq<u64>, k: int, n: int)
    requires
        k <= n,
    ensures
        tables_needed(tables, root, pages, k) <= tables_needed(tables, root, pages, n),
    decreases n - k,
{
    if k < n {
        lemma_needed_rises(tables, root, pages, k, n - 1);
    }
}

/// At most three tables are to be made for a page.
pub proof fn lemma_needed_at_most(tables: Tables, root: u64, pages: Seq<u64>, n: int)
    requires
        0 <= n,
    ensures
        tables_needed(tables, root, pages, n) <= 3 * n,
    decreases n,
{
    if n > 0 {
        lemma_needed_at_most(tables, root, pages, n - 1);
    }
}

/// What is shared with, and needed for, the first pages of a sequence depends on these
/// pages alone.
pub proof fn lemma_prefix(
    tables: Tables,
    root: u64,
    a: Seq<u64>,
    b: Seq<u64>,
    k: int,
    page: u64,
    level: int,
)
    requires
        0 <= k <= a.len(),
        forall|i: int| 0 <= i < k ==> a[i] == b[i],
        k < a.len() && k < b.len() ==> a[k] == b[k],
    ensures
        shared_before(a, k, page, level) == shared_before(b, k, page, level),
        tables_needed(tables, root, a, k) == tables_needed(tables, root, b, k),
        k < a.len() && k < b.len() ==> tables_for(tables, root, a, k) == tables_for(
            tables,
            root,
            b,
            k,
        ),
    decreases k,
{
    if k > 0 {
        lemma_prefix(tables, root, a, b, k - 1, page, level);
        lemma_prefix(tables, root, a, b, k - 1, a[k - 1], 3);
        lemma_prefix(tables, root, a, b, k - 1, a[k - 1], 2);
        lemma_prefix(tables, root, a, b, k - 1, a[k - 1], 1);
    }
    if k < a.len() && k < b.len() {
        if k > 0 {
            lemma_prefix(tables, root, a, b, k - 1, a[k], 3);
            lemma_prefix(tables, root, a, b, k - 1, a[k], 2);
            lemma_prefix(tables, root, a, b, k - 1, a[k], 1);
        }
    }
}

/// What is shared with the pages of two sequences, one behind the other, is what is shared
/// with those of the first or with those of the second.
pub proof fn lemma_shared_concat(a: Seq<u64>, b: Seq<u64>, j: int, page: u64, level: int)
    requires
        0 <= j <= b.len(),
    ensures
        shared_before(a + b, a.len() + j, page, level) == (shared_before(
            a,
            a.len() as int,
            page,
            level,
        ) || shared_before(b, j, page, level)),
    decreases j,
{
    if j > 0 {
        lemma_shared_concat(a, b, j - 1, page, level);
        assert((a + b)[a.len() + j - 1] == b[j - 1]);
    } else {
        lemma_prefix(Map::empty(), 0, a + b, a, a.len() as int, page, level);
    }
}

/// The tables for two sequences of pages, one behind the other, are those for the first
/// and, once its pages are mapped, those for the second.
pub proof fn lemma_needed_concat(
    before: Tables,
    current: Tables,
    root: u64,
    a: Seq<u64>,
    b: Seq<u64>,
    j: int,
)
    requires
        0 <= j <= b.len(),
        forall|i: int| 0 <= i < b.len() ==> user_page(#[trigger] b[i]),
        grown_by(before, current, root, a, a.len() as int),
    ensures
        tables_needed(before, root, a + b, a.len() + j) == tables_needed(
            before,
            root,
            a,
            a.len() as int,
        ) + tables_needed(current, root, b, j),
    decreases j,
{
    if j > 0 {
        lemma_needed_concat(before, current, root, a, b, j - 1);
        let page = b[j - 1];
        assert((a + b)[a.len() + j - 1] == page);
        lemma_shared_concat(a, b, j - 1, page, 3);
        lemma_shared_concat(a, b, j - 1, page, 2);
        lemma_shared_concat(a, b, j - 1, page, 1);
        assert(table_there(current, root, page, 3) == (table_there(before, root, page, 3)
            || shared_before(a, a.len() as int, page, 3)));
        assert(table_there(current, root, page, 2) == (table_there(before, root, page, 2)
            || shared_before(a, a.len() as int, page, 2)));
        assert(table_there(current, root, page, 1) == (table_there(before, root, page, 1)
            || shared_before(a, a.len() as int, page, 1)));
    } else {
        lemma_prefix(before, root, a + b, a, a.len() as int, 0, 1);
    }
}

/// Where the tables grow by those for a first sequence of pages and then by those for a
/// second, they grow by those for the two, one behind the other.
pub proof fn lemma_grown_concat(
    before: Tables,
    current: Tables,
    after: Tables,
    root: u64,
    a: Seq<u64>,
    b: Seq<u64>,
)
    requires
        grown_by(before, current, root, a, a.len() as int),
        grown_by(current, after, root, b, b.len() as int),
    ensures
        grown_by(before, after, root, a + b, (a + b).len() as int),
{
    assert forall|other: u64, level: int|
        user_page(other) && 1 <= level <= 3 implies #[trigger] table_there(
        after,
        root,
        other,
        level,
    ) == (table_there(before, root, other, level) || shared_before(
        a + b,
        (a + b).len() as int,
        other,
        level,
    )) by {
        lemma_shared_concat(a, b, b.len() as int, other, level);
        assert(table_there(current, root, other, level) == (table_there(
            before,
            root,
            other,
            level,
        ) || shared_before(a, a.len() as int, other, level)));
    }
}

/// Under a root table from which no way leads on, the tables to be made are those that
/// are to be made where there is no table at all.
pub proof fn lemma_needed_fresh(tables: Tables, root: u64, pages: Seq<u64>, n: int)
    requires
        0 <= n <= pages.len(),
        forall|i: int| 0 <= i < pages.len() ==> user_page(#[trigger] pages[i]),
        forall|other: u64| user_page(other) ==> !#[trigger] table_there(tables, root, other, 3),
    ensures
        tables_needed(tables, root, pages, n) == tables_needed(Map::empty(), 0, pages, n),
    decreases n,
{
    if n > 0 {
        lemma_needed_fresh(tables, root, pages, n - 1);
        assert(!table_there(tables, root, pages[n - 1], 3));
    }
}

/// Mapping a batch of pages that follows the pages `done` in `all`: the tables for `done`
/// and those for the batch, once `done` is mapped, are those for the two together, which
/// are no more than those for all; and the tables have grown by those for the two once the
/// batch is mapped.
pub proof fn lemma_batch(
    before: Tables,
    current: Tables,
    after: Tables,
    root: u64,
    all: Seq<u64>,
    done: Seq<u64>,
    batch: Seq<u64>,
)
    requires
        grown_by(before, current, root, done, done.len() as int),
        forall|i: int| 0 <= i < batch.len() ==> user_page(#[trigger] batch[i]),
        done.len() + batch.len() <= all.len(),
        forall|i: int| 0 <= i < done.len() + batch.len() ==> all[i] == (done + batch)[i],
    ensures
        tables_needed(before, root, done + batch, (done + batch).len() as int) == tables_needed(
            before,
            root,
            done,
            done.len() as int,
        ) + tables_needed(current, root, batch, batch.len() as int),
        tables_needed(before, root, done + batch, (done + batch).len() as int) <= tables_needed(
            before,
            root,
            all,
            all.len() as int,
        ),
        grown_by(current, after, root, batch, batch.len() as int) ==> grown_by(
            before,
            after,
            root,
            done + batch,
            (done + batch).len() as int,
        ),
{
    let both = done + batch;
    lemma_needed_concat(before, current, root, done, batch, batch.len() as int);
    lemma_prefix(before, root, all, both, both.len() as int, 0, 1);
    lemma_needed_rises(before, root, all, both.len() as int, all.len() as int);
    if grown_by(current, after, root, batch, batch.len() as int) {
        lemma_grown_concat(before, current, after, root, done, batch);
    }
}

/// For a single page the tables to be made are those that are missing on the way to it,
/// and the tables grow by them where they grow by those on the way to it.
pub proof fn lemma_single(tables: Tables, after: Tables, root: u64, page: u64)
    requires
        user_page(page),
    ensures
        tables_needed(tables, root, seq![page], 1) == missing_tables(tables, root, page),
        (forall|other: u64, level: int|
            user_page(other) && 1 <= level <= 3 ==> #[trigger] table_there(
                after,
                root,
                other,
                level,
            ) == (table_there(tables, root, other, level) || same_table(other, page, level)))
            ==> grown_by(tables, after, root, seq![page], 1),
{
    let pages = seq![page];
    assert(pages[0] == page);
    assert(grown_by(tables, tables, root, pages, 0));
    lemma_missing(tables, tables, root, pages, 0);
    assert(tables_needed(tables, root, pages, 0) == 0);
    if forall|other: u64, level: int|
        user_page(other) && 1 <= level <= 3 ==> #[trigger] table_there(after, root, other, level)
            == (table_there(tables, root, other, level) || same_table(other, page, level)) {
        lemma_grown_step(tables, tables, after, root, pages, 0);
    }
}

/// Under a root table that holds its recursive entry and no other, the tables to be made
/// are those that are to be made where there is no table at all.
pub proof fn lemma_needed_under_new_root(tables: Tables, root: u64, word: u64, pages: Seq<u64>)
    requires
        tables.contains_key(root) ==> tables[root] == zero_table().update(
            RECURSIVE_INDEX as int,
            word,
        ),
        forall|i: int| 0 <= i < pages.len() ==> user_page(#[trigger] pages[i]),
    ensures
        tables_needed(tables, root, pages, pages.len() as int) == tables_needed(
            Map::empty(),
            0,
            pages,
            pages.len() as int,
        ),
{
    assert forall|other: u64| user_page(other) implies !#[trigger] table_there(
        tables,
        root,
        other,
        3,
    ) by {
        lemma_table_indices(other, other);
        lemma_word_ranges(0);
    }
    lemma_needed_fresh(tables, root, pages, pages.len() as int);
}

/// Where an entry of a table of level 1 maps the page `mapped`, the tables on the way to
/// it are there, and so they are on the way to each page that shares them.
pub proof fn lemma_mapped_there(tables: Tables, root: u64, mapped: u64, page: u64, level: int)
    requires
        leaf(tables, root, mapped) is Some,
        leaf(tables, root, mapped)->0.level == 1,
        same_table(page, mapped, level),
        1 <= level <= 3,
    ensures
        table_there(tables, root, page, level),
{
}

/// For pages that share their table of level 1, the tables to be made are those that are
/// missing on the way to the first of them.
pub proof fn lemma_needed_shared(tables: Tables, root: u64, pages: Seq<u64>, n: int)
    requires
        1 <= n <= pages.len(),
        forall|i: int| 0 <= i < n ==> same_table(#[trigger] pages[i], pages[0], 1),
    ensures
        tables_needed(tables, root, pages, n) == tables_for(tables, root, pages, 0),
    decreases n,
{
    if n > 1 {
        lemma_needed_shared(tables, root, pages, n - 1);
        assert(same_table(pages[n - 1], pages[0], 1));
        assert(same_table(pages[n - 2], pages[0], 1));
        assert(shared_before(pages, n - 1, pages[n - 1], 1));
        assert(shared_before(pages, n - 1, pages[n - 1], 2));
        assert(shared_before(pages, n - 1, pages[n - 1], 3));
    } else {
        assert(tables_needed(tables, root, pages, 0) == 0);
    }
}

/// Where a table is shared with one of the first `k` pages, there is such a page.
pub proof fn lemma_shared_with(pages: Seq<u64>, k: int, page: u64, level: int)
    requires
        shared_before(pages, k, page, level),
    ensures
        exists|j: int| 0 <= j < k && same_table(page, #[trigger] pages[j], level),
    decreases k,
{
    if !same_table(page, pages[k - 1], level) {
        lemma_shared_with(pages, k - 1, page, level);
    }
}

} // verus!
