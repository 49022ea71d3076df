use vstd::prelude::*;
use crate::memory::paging::entry::COUNTER_MASK;
use crate::memory::paging::entry::FLAGS_MASK;
use crate::memory::paging::entry::FRAME_LIMIT;
use crate::memory::paging::entry::lemma_word_cleared;
use crate::memory::paging::entry::lemma_word_ranges;
use crate::memory::paging::entry::lemma_word_set;
use crate::memory::paging::entry::PRESENT;
use crate::memory::paging::entry::word_cleared;
use crate::memory::paging::entry::word_flags;
use crate::memory::paging::entry::word_frame;
use crate::memory::paging::entry::word_huge;
use crate::memory::paging::entry::word_leads_on;
use crate::memory::paging::entry::word_present;
use crate::memory::paging::entry::word_set;
use crate::memory::paging::entry::word_unused;
use crate::memory::paging::entry::WRITABLE;
use crate::memory::paging::is_page_number;
use crate::memory::paging::lemma_table_indices;
use crate::memory::paging::table::lemma_count_after_set;
use crate::memory::paging::table::lemma_count_after_set_unused;
use crate::memory::paging::table::lemma_table_with_count;
use crate::memory::paging::table::table_count;
use crate::memory::paging::table::table_with_child;
use crate::memory::paging::table::table_with_count;
use crate::memory::paging::table::table_with_leaf;
use crate::memory::paging::table::table_without;
use crate::memory::paging::table::zero_table;
use crate::memory::paging::table_index;

verus! {

/// The tables in memory: for the number of each frame that holds one, its 512 words.
pub type Tables = Map<u64, Seq<u64>>;

/// The level of each frame that holds a table.
pub type Levels = Map<u64, nat>;

/// For each frame that holds a table below a root, the table and the entry that lead to it.
pub type Parents = Map<u64, (u64, int)>;

/// Two entry words differ at most in their counters.
pub open spec fn same_payload(a: u64, b: u64) -> bool {
    a & !COUNTER_MASK == b & !COUNTER_MASK
}

/// Words that differ at most in their counters name the same frame with the same flags.
pub proof fn lemma_same_payload(a: u64, b: u64)
    by (bit_vector)
    requires
        same_payload(a, b),
    ensures
        word_frame(a) == word_frame(b),
        word_flags(a) == word_flags(b),
        word_present(a) == word_present(b),
        word_huge(a) == word_huge(b),
        word_leads_on(a) == word_leads_on(b),
        word_unused(a) == word_unused(b),
{
}

/// Entry `index` of a table of level `level` counts towards the table's entry count where
/// its word `word` is present; the recursive entry of a root table does not count.
pub open spec fn counted(level: nat, index: int, word: u64) -> bool {
    word_present(word) && !(level == 4 && index == 511)
}

/// How many of the first `n` entries of `table` count.
pub open spec fn present_upto(table: Seq<u64>, level: nat, n: int) -> nat
    decreases n,
{
    if n <= 0 {
        0
    } else {
        present_upto(table, level, n - 1) + if counted(level, n - 1, table[n - 1]) {
            1nat
        } else {
            0nat
        }
    }
}

/// How many entries of `table` count.
pub open spec fn present_count(table: Seq<u64>, level: nat) -> nat {
    present_upto(table, level, 512)
}

/// Of `n` entries at most `n` count; where none counts, no entry does, and the other way
/// round.
pub proof fn lemma_present_upto(table: Seq<u64>, level: nat, n: int)
    requires
        0 <= n,
    ensures
        present_upto(table, level, n) <= n,
        present_upto(table, level, n) == 0 <==> forall|i: int|
            0 <= i < n ==> !counted(level, i, #[trigger] table[i]),
        forall|i: int|
            0 <= i < n && counted(level, i, #[trigger] table[i]) ==> present_upto(table, level, n)
                >= 1,
        forall|i: int|
            0 <= i < n && !counted(level, i, #[trigger] table[i]) ==> present_upto(table, level, n)
                < n,
    decreases n,
{
    if n > 0 {
        lemma_present_upto(table, level, n - 1);
    }
}

/// Where two of the first `n` entries count, two at least count.
pub proof fn lemma_present_two(table: Seq<u64>, level: nat, first: int, second: int, n: int)
    requires
        0 <= first < second < n,
        counted(level, first, table[first]),
        counted(level, second, table[second]),
    ensures
        present_upto(table, level, n) >= 2,
    decreases n,
{
    if n - 1 == second {
        lemma_present_upto(table, level, n - 1);
    } else {
        lemma_present_two(table, level, first, second, n - 1);
    }
}

/// Where one of the first `n` entries counts and no other, one counts.
pub proof fn lemma_present_single(table: Seq<u64>, level: nat, index: int, n: int)
    requires
        0 <= index < n,
        forall|i: int| 0 <= i < n ==> counted(level, i, #[trigger] table[i]) == (i == index),
    ensures
        present_upto(table, level, n) == 1,
    decreases n,
{
    if n - 1 == index {
        lemma_present_upto(table, level, n - 1);
    } else {
        lemma_present_single(table, level, index, n - 1);
    }
}

/// Tables whose entries agree on whether they count have the same number that count.
pub proof fn lemma_present_upto_same(a: Seq<u64>, b: Seq<u64>, level: nat, n: int)
    requires
        0 <= n,
        forall|i: int| 0 <= i < n ==> counted(level, i, #[trigger] a[i]) == counted(level, i, b[i]),
    ensures
        present_upto(a, level, n) == present_upto(b, level, n),
    decreases n,
{
    if n > 0 {
        lemma_present_upto_same(a, b, level, n - 1);
    }
}

/// Where the tables `a` and `b` agree on which entries count but for entry `index`, their
/// numbers differ by what that entry adds.
pub proof fn lemma_present_upto_differ(a: Seq<u64>, b: Seq<u64>, level: nat, index: int, n: int)
    requires
        0 <= index < n,
        forall|i: int|
            0 <= i < n && i != index ==> counted(level, i, #[trigger] a[i]) == counted(
                level,
                i,
                b[i],
            ),
    ensures
        present_upto(a, level, n) - (if counted(level, index, a[index]) {
            1int
        } else {
            0int
        }) == present_upto(b, level, n) - (if counted(level, index, b[index]) {
            1int
        } else {
            0int
        }),
    decreases n,
{
    if n - 1 == index {
        lemma_present_upto_same(a, b, level, n - 1);
    } else {
        lemma_present_upto_differ(a, b, level, index, n - 1);
    }
}

/// In a table of zeros no entry counts.
pub proof fn lemma_zero_table_count(level: nat)
    ensures
        present_count(zero_table(), level) == 0,
        table_count(zero_table()) == 0,
{
    lemma_present_upto(zero_table(), level, 512);
    lemma_word_ranges(0);
    assert forall|i: int| 0 <= i < 512 implies !counted(level, i, #[trigger] zero_table()[i]) by {}
    crate::memory::paging::table::lemma_join_count_range(0, 0, 0, 0);
}

/// Entry `index` of the table in `frame` leads to a table of the next level. The recursive
/// entry of a root table is left out: it leads to a root table.
pub open spec fn links(tables: Tables, levels: Levels, frame: u64, index: int) -> bool {
    &&& tables.contains_key(frame)
    &&& 0 <= index < 512
    &&& levels[frame] > 1
    &&& word_leads_on(tables[frame][index])
    &&& !(levels[frame] == 4 && index == 511)
}

/// The table in `frame` is sound by itself: it has its 512 entries and a level, and its
/// entry count is the number of its entries that count.
pub open spec fn table_ok(tables: Tables, levels: Levels, frame: u64) -> bool {
    &&& tables[frame].len() == 512
    &&& frame < FRAME_LIMIT
    &&& levels.contains_key(frame)
    &&& 1 <= levels[frame] <= 4
    &&& table_count(tables[frame]) == present_count(tables[frame], levels[frame])
}

/// The table that entry `index` of the table in `frame` leads to is in memory, lies one
/// level below, and knows this entry as the one that leads to it.
pub open spec fn child_ok(
    tables: Tables,
    levels: Levels,
    parents: Parents,
    frame: u64,
    index: int,
) -> bool {
    let child = word_frame(tables[frame][index]);
    &&& tables.contains_key(child)
    &&& levels[child] + 1 == levels[frame]
    &&& parents.contains_key(child)
    &&& parents[child] == (frame, index)
}

/// The tables in memory form trees: every table is sound, and every entry that leads on
/// leads to a table of the next level that no other entry leads to.
pub open spec fn tables_wf(tables: Tables, levels: Levels, parents: Parents) -> bool {
    &&& forall|f: u64| #[trigger] tables.contains_key(f) ==> table_ok(tables, levels, f)
    &&& forall|f: u64, i: int| #[trigger]
        links(tables, levels, f, i) ==> child_ok(tables, levels, parents, f, i)
}

/// The frame of the table that entry `index` of the table in `table` leads to.
pub open spec fn next_of(tables: Tables, table: Option<u64>, index: int) -> Option<u64> {
    match table {
        Some(f) => if tables.contains_key(f) && word_leads_on(tables[f][index]) {
            Some(word_frame(tables[f][index]))
        } else {
            None
        },
        None => None,
    }
}

/// The word of entry `index` of the table in `table`.
pub open spec fn word_at(tables: Tables, table: Option<u64>, index: int) -> Option<u64> {
    match table {
        Some(f) => if tables.contains_key(f) {
            Some(tables[f][index])
        } else {
            None
        },
        None => None,
    }
}

/// The frame of the table of level 3 on the way from `root` to the page `page`.
pub open spec fn p3_of(tables: Tables, root: u64, page: u64) -> Option<u64> {
    next_of(tables, Some(root), table_index(page, 4) as int)
}

/// The frame of the table of level 2 on the way from `root` to the page `page`.
pub open spec fn p2_of(tables: Tables, root: u64, page: u64) -> Option<u64> {
    next_of(tables, p3_of(tables, root, page), table_index(page, 3) as int)
}

/// The frame of the table of level 1 on the way from `root` to the page `page`.
pub open spec fn p1_of(tables: Tables, root: u64, page: u64) -> Option<u64> {
    next_of(tables, p2_of(tables, root, page), table_index(page, 2) as int)
}

/// The entry that maps a page: its level (1 for a page of 4 KiB, 2 for one of 2 MiB, 3 for
/// one of 1 GiB), the frame it names and its flags.
pub struct Leaf {
    pub level: u64,
    pub frame: u64,
    pub flags: u64,
}

/// The leaf that the entry word `word` of a table of level `level` makes.
pub open spec fn leaf_of(level: u64, word: u64) -> Leaf {
    Leaf { level, frame: word_frame(word), flags: word_flags(word) }
}

/// The entry that maps the page `page` in the tables under `root`, if one does.
pub open spec fn leaf(tables: Tables, root: u64, page: u64) -> Option<Leaf> {
    match word_at(tables, p1_of(tables, root, page), table_index(page, 1) as int) {
        Some(w1) => if word_present(w1) {
            Some(leaf_of(1, w1))
        } else {
            None
        },
        None => match word_at(tables, p2_of(tables, root, page), table_index(page, 2) as int) {
            Some(w2) => if word_present(w2) && word_huge(w2) {
                Some(leaf_of(2, w2))
            } else {
                None
            },
            None => match word_at(tables, p3_of(tables, root, page), table_index(page, 3) as int) {
                Some(w3) => if word_present(w3) && word_huge(w3) {
                    Some(leaf_of(3, w3))
                } else {
                    None
                },
                None => None,
            },
        },
    }
}

/// A huge page starts at a frame whose number is a multiple of its size in frames.
pub open spec fn leaf_aligned(leaf: Leaf) -> bool {
    if leaf.level == 3 {
        leaf.frame % 0x4_0000 == 0
    } else if leaf.level == 2 {
        leaf.frame % 512 == 0
    } else {
        true
    }
}

/// The frame that the page `page` lies in where `leaf` maps it.
pub open spec fn leaf_frame(leaf: Leaf, page: u64) -> u64 {
    if leaf.level == 3 {
        (leaf.frame + table_index(page, 2) * 512 + table_index(page, 1)) as u64
    } else if leaf.level == 2 {
        (leaf.frame + table_index(page, 1)) as u64
    } else {
        leaf.frame
    }
}

/// The number of the frame that the page `page` is mapped to in the tables under `root`.
pub open spec fn translate_in(tables: Tables, root: u64, page: u64) -> Option<u64> {
    match leaf(tables, root, page) {
        Some(l) => Some(leaf_frame(l, page)),
        None => None,
    }
}

/// The page `page` is one that the mapper's callers map: it does not lie in the part of the
/// address space that the recursive entry takes up.
pub open spec fn user_page(page: u64) -> bool {
    is_page_number(page) && table_index(page, 4) != 511
}

/// The tables on the way from a root to a page are in memory, one level below one another,
/// and each knows the entry that leads to it.
pub proof fn lemma_path(tables: Tables, levels: Levels, parents: Parents, root: u64, page: u64)
    requires
        tables_wf(tables, levels, parents),
        tables.contains_key(root),
        levels[root] == 4,
        user_page(page),
    ensures
        p3_of(tables, root, page) matches Some(p3) ==> tables.contains_key(p3) && levels[p3] == 3
            && parents[p3] == (root, table_index(page, 4) as int),
        p2_of(tables, root, page) matches Some(p2) ==> tables.contains_key(p2) && levels[p2] == 2
            && parents[p2] == (p3_of(tables, root, page)->0, table_index(page, 3) as int),
        p1_of(tables, root, page) matches Some(p1) ==> tables.contains_key(p1) && levels[p1] == 1
            && parents[p1] == (p2_of(tables, root, page)->0, table_index(page, 2) as int),
{
    lemma_table_indices(page, page);
    let i4 = table_index(page, 4) as int;
    let i3 = table_index(page, 3) as int;
    let i2 = table_index(page, 2) as int;
    if p3_of(tables, root, page) is Some {
        assert(links(tables, levels, root, i4));
        let p3 = p3_of(tables, root, page)->0;
        if p2_of(tables, root, page) is Some {
            assert(links(tables, levels, p3, i3));
            let p2 = p2_of(tables, root, page)->0;
            if p1_of(tables, root, page) is Some {
                assert(links(tables, levels, p2, i2));
            }
        }
    }
}

/// Two pages whose ways from `root` pass through the same table of a level share the
/// indices of all the levels above.
pub proof fn lemma_shared_table(
    tables: Tables,
    levels: Levels,
    parents: Parents,
    root: u64,
    p: u64,
    q: u64,
)
    requires
        tables_wf(tables, levels, parents),
        tables.contains_key(root),
        levels[root] == 4,
        user_page(p),
        user_page(q),
    ensures
        p3_of(tables, root, p) is Some && p3_of(tables, root, p) == p3_of(tables, root, q)
            ==> table_index(p, 4) == table_index(q, 4),
        p2_of(tables, root, p) is Some && p2_of(tables, root, p) == p2_of(tables, root, q)
            ==> table_index(p, 4) == table_index(q, 4) && table_index(p, 3) == table_index(q, 3),
        p1_of(tables, root, p) is Some && p1_of(tables, root, p) == p1_of(tables, root, q)
            ==> table_index(p, 4) == table_index(q, 4) && table_index(p, 3) == table_index(q, 3)
            && table_index(p, 2) == table_index(q, 2),
{
    lemma_path(tables, levels, parents, root, p);
    lemma_path(tables, levels, parents, root, q);
}

/// A table whose entry `index` is not present has room for one more entry in its count.
pub proof fn lemma_room(tables: Tables, levels: Levels, parents: Parents, table: u64, index: int)
    requires
        tables_wf(tables, levels, parents),
        tables.contains_key(table),
        0 <= index < 512,
        !word_present(tables[table][index]),
    ensures
        table_count(tables[table]) < 512,
{
    lemma_present_upto(tables[table], levels[table], 512);
}

/// What `table_with_leaf` does to a table whose entry `index` was not present: the entry
/// now names `frame` with `flags`, the other entries keep frame and flags, and both the
/// entry count and the number of entries that count have gone up by one.
pub proof fn lemma_table_with_leaf(
    table: Seq<u64>,
    level: nat,
    index: int,
    frame: u64,
    flags: u64,
)
    requires
        table.len() == 512,
        0 <= index < 512,
        !(level == 4 && index == 511),
        !word_present(table[index]),
        table_count(table) == present_count(table, level),
        frame < FRAME_LIMIT,
        flags & !FLAGS_MASK == 0,
        flags & PRESENT != 0,
    ensures
        table_with_leaf(table, index, frame, flags).len() == 512,
        forall|j: int|
            0 <= j < 512 && j != index ==> same_payload(
                #[trigger] table_with_leaf(table, index, frame, flags)[j],
                table[j],
            ),
        word_present(table_with_leaf(table, index, frame, flags)[index]),
        word_frame(table_with_leaf(table, index, frame, flags)[index]) == frame,
        word_flags(table_with_leaf(table, index, frame, flags)[index]) == flags,
        word_huge(table_with_leaf(table, index, frame, flags)[index]) == (flags & 0x80 != 0),
        table_count(table_with_leaf(table, index, frame, flags)) == table_count(table) + 1,
        present_count(table_with_leaf(table, index, frame, flags), level) == present_count(
            table,
            level,
        ) + 1,
{
    lemma_present_upto(table, level, 512);
    let count = (table_count(table) + 1) as u64;
    let counted_table = table_with_count(table, count);
    lemma_table_with_count(table, count);
    let after = table_with_leaf(table, index, frame, flags);
    lemma_word_set(counted_table[index], frame, flags);
    lemma_count_after_set(counted_table, index, frame, flags);
    assert forall|j: int| 0 <= j < 512 && j != index implies counted(level, j, #[trigger] after[j])
        == counted(level, j, table[j]) by {
        lemma_same_payload(after[j], table[j]);
    }
    lemma_present_upto_differ(after, table, level, index, 512);
}

/// What `table_without` does to a table whose entry `index` was present: the entry is now
/// unused, the other entries keep frame and flags, and both the entry count and the number
/// of entries that count have gone down by one.
pub proof fn lemma_table_without(table: Seq<u64>, level: nat, index: int)
    requires
        table.len() == 512,
        0 <= index < 512,
        !(level == 4 && index == 511),
        word_present(table[index]),
        table_count(table) == present_count(table, level),
    ensures
        1 <= table_count(table) <= 512,
        table_without(table, index).len() == 512,
        forall|j: int|
            0 <= j < 512 && j != index ==> same_payload(
                #[trigger] table_without(table, index)[j],
                table[j],
            ),
        !word_present(table_without(table, index)[index]),
        word_unused(table_without(table, index)[index]),
        table_count(table_without(table, index)) == table_count(table) - 1,
        present_count(table_without(table, index), level) == present_count(table, level) - 1,
{
    lemma_present_upto(table, level, 512);
    let cleared = table.update(index, word_cleared(table[index]));
    lemma_word_cleared(table[index]);
    lemma_count_after_set_unused(table, index);
    let count = (table_count(table) - 1) as u64;
    lemma_table_with_count(cleared, count);
    let after = table_without(table, index);
    lemma_same_payload(after[index], cleared[index]);
    assert forall|j: int| 0 <= j < 512 && j != index implies counted(level, j, #[trigger] after[j])
        == counted(level, j, table[j]) by {
        lemma_same_payload(after[j], table[j]);
    }
    lemma_present_upto_differ(after, table, level, index, 512);
}

/// The pages `a` and `b` have the same table of level `level` (3, 2 or 1) on their ways: they
/// have the same index at every level above it.
pub open spec fn same_table(a: u64, b: u64, level: int) -> bool {
    &&& table_index(a, 4) == table_index(b, 4)
    &&& level <= 2 ==> table_index(a, 3) == table_index(b, 3)
    &&& level <= 1 ==> table_index(a, 2) == table_index(b, 2)
}

/// The table of level `level` (3, 2 or 1) on the way from `root` to `page` is there.
pub open spec fn table_there(tables: Tables, root: u64, page: u64, level: int) -> bool {
    if level == 3 {
        p3_of(tables, root, page) is Some
    } else if level == 2 {
        p2_of(tables, root, page) is Some
    } else {
        p1_of(tables, root, page) is Some
    }
}

/// What hanging the table in `child` into entry `index` of the table in `table` makes of the
/// way from `root` to `page`: the way leads on to `child` where it came to that entry, and
/// is as it was before everywhere else.
pub open spec fn way_with_child(
    before: Tables,
    after: Tables,
    root: u64,
    page: u64,
    table: u64,
    index: int,
    child: u64,
) -> bool {
    &&& p3_of(after, root, page) == if root == table && table_index(page, 4) == index {
        Some(child)
    } else {
        p3_of(before, root, page)
    }
    &&& p2_of(after, root, page) == if p3_of(before, root, page) == Some(table) && table_index(
        page,
        3,
    ) == index {
        Some(child)
    } else {
        p2_of(before, root, page)
    }
    &&& p1_of(after, root, page) == if p2_of(before, root, page) == Some(table) && table_index(
        page,
        2,
    ) == index {
        Some(child)
    } else {
        p1_of(before, root, page)
    }
}

/// The ways from `root` to `page` are the same in `before` and in `after`.
pub open spec fn same_way(before: Tables, after: Tables, root: u64, page: u64) -> bool {
    &&& p3_of(after, root, page) == p3_of(before, root, page)
    &&& p2_of(after, root, page) == p2_of(before, root, page)
    &&& p1_of(after, root, page) == p1_of(before, root, page)
}

/// The tables after a new table of zeros in frame `child` was hung into entry `index` of the
/// table in `table`.
pub open spec fn tables_with_child(tables: Tables, table: u64, index: int, child: u64) -> Tables {
    tables.insert(table, table_with_child(tables[table], index, child)).insert(child, zero_table())
}

/// Hanging a new, empty table into an entry that was not present keeps the trees sound and
/// maps no page anew or elsewhere.
pub proof fn lemma_create(
    tables: Tables,
    levels: Levels,
    parents: Parents,
    table: u64,
    index: int,
    child: u64,
)
    requires
        tables_wf(tables, levels, parents),
        tables.contains_key(table),
        levels[table] >= 2,
        0 <= index < 512,
        !(levels[table] == 4 && index == 511),
        !word_present(tables[table][index]),
        !tables.contains_key(child),
        child < FRAME_LIMIT,
    ensures
        tables_wf(
            tables_with_child(tables, table, index, child),
            levels.insert(child, (levels[table] - 1) as nat),
            parents.insert(child, (table, index)),
        ),
        next_of(tables_with_child(tables, table, index, child), Some(table), index) == Some(child),
        forall|f: u64, j: int|
            tables.contains_key(f) && 0 <= j < 512 && !(f == table && j == index) ==> same_payload(
                #[trigger] tables_with_child(tables, table, index, child)[f][j],
                tables[f][j],
            ),
        forall|root: u64, page: u64|
            tables.contains_key(root) && levels[root] == 4 && user_page(page) ==> #[trigger] leaf(
                tables_with_child(tables, table, index, child),
                root,
                page,
            ) == leaf(tables, root, page),
        forall|root: u64, page: u64|
            tables.contains_key(root) && levels[root] == 4 && user_page(page)
                ==> #[trigger] way_with_child(
                tables,
                tables_with_child(tables, table, index, child),
                root,
                page,
                table,
                index,
                child,
            ),
{
    let after = tables_with_child(tables, table, index, child);
    let levels2 = levels.insert(child, (levels[table] - 1) as nat);
    let parents2 = parents.insert(child, (table, index));
    let level = levels[table];
    lemma_flag_bits();
    lemma_table_with_leaf(tables[table], level, index, child, PRESENT | WRITABLE);
    lemma_zero_table_count((level - 1) as nat);
    lemma_word_ranges(0);
    assert forall|f: u64, j: int|
        tables.contains_key(f) && 0 <= j < 512 && !(f == table && j == index) implies same_payload(
        #[trigger] after[f][j],
        tables[f][j],
    ) by {}
    assert forall|f: u64| #[trigger] after.contains_key(f) implies table_ok(after, levels2, f) by {
        if f != child && f != table {
            assert(tables.contains_key(f));
        }
    }
    assert forall|f: u64, j: int| #[trigger] links(after, levels2, f, j) implies child_ok(
        after,
        levels2,
        parents2,
        f,
        j,
    ) by {
        if f == child {
        } else if f == table && j == index {
        } else {
            lemma_same_payload(after[f][j], tables[f][j]);
            assert(links(tables, levels, f, j));
        }
    }
    assert forall|root: u64, page: u64|
        tables.contains_key(root) && levels[root] == 4 && user_page(page) implies #[trigger] leaf(
        after,
        root,
        page,
    ) == leaf(tables, root, page) by {
        lemma_create_leaf(tables, levels, parents, table, index, child, root, page);
    }
    assert forall|root: u64, page: u64|
        tables.contains_key(root) && levels[root] == 4 && user_page(
            page,
        ) implies #[trigger] way_with_child(tables, after, root, page, table, index, child) by {
        lemma_create_leaf(tables, levels, parents, table, index, child, root, page);
    }
}

/// The flags with which a table is hung into an entry make the entry lead on.
pub proof fn lemma_flag_bits()
    by (bit_vector)
    ensures
        (PRESENT | WRITABLE) & !FLAGS_MASK == 0,
        (PRESENT | WRITABLE) & PRESENT != 0,
        (PRESENT | WRITABLE) & 0x80 == 0,
{
}

/// Hanging a new, empty table into an entry that was not present leaves the leaf of each
/// page as it was.
proof fn lemma_create_leaf(
    tables: Tables,
    levels: Levels,
    parents: Parents,
    table: u64,
    index: int,
    child: u64,
    root: u64,
    page: u64,
)
    requires
        tables_wf(tables, levels, parents),
        tables.contains_key(table),
        levels[table] >= 2,
        0 <= index < 512,
        !(levels[table] == 4 && index == 511),
        !word_present(tables[table][index]),
        !tables.contains_key(child),
        child < FRAME_LIMIT,
        tables.contains_key(root),
        levels[root] == 4,
        user_page(page),
    ensures
        leaf(tables_with_child(tables, table, index, child), root, page) == leaf(
            tables,
            root,
            page,
        ),
        way_with_child(
            tables,
            tables_with_child(tables, table, index, child),
            root,
            page,
            table,
            index,
            child,
        ),
{
    let after = tables_with_child(tables, table, index, child);
    let level = levels[table];
    lemma_flag_bits();
    lemma_table_with_leaf(tables[table], level, index, child, PRESENT | WRITABLE);
    lemma_word_ranges(0);
    lemma_path(tables, levels, parents, root, page);
    lemma_table_indices(page, page);
    let i4 = table_index(page, 4) as int;
    let i3 = table_index(page, 3) as int;
    let i2 = table_index(page, 2) as int;
    let i1 = table_index(page, 1) as int;
    let p3 = p3_of(tables, root, page);
    let p2 = p2_of(tables, root, page);
    let p1 = p1_of(tables, root, page);
    let hit4 = root == table && i4 == index;
    let hit3 = p3 == Some(table) && i3 == index;
    let hit2 = p2 == Some(table) && i2 == index;
    if hit4 {
        // the way ended at the entry, and now ends in the empty table
        assert(p3 is None);
        assert(p3_of(after, root, page) == Some(child));
        assert(after[child][i3] == 0);
    } else {
        lemma_same_payload(after[root][i4], tables[root][i4]);
        assert(p3_of(after, root, page) == p3);
        if hit3 {
            assert(p2 is None);
            assert(p2_of(after, root, page) == Some(child));
            assert(after[child][i2] == 0);
        } else {
            if p3 is Some {
                lemma_same_payload(after[p3->0][i3], tables[p3->0][i3]);
            }
            assert(p2_of(after, root, page) == p2);
            if hit2 {
                assert(p1 is None);
                assert(p1_of(after, root, page) == Some(child));
                assert(after[child][i1] == 0);
            } else {
                if p2 is Some {
                    lemma_same_payload(after[p2->0][i2], tables[p2->0][i2]);
                }
                assert(p1_of(after, root, page) == p1);
                if p1 is Some {
                    assert(p1->0 != table);
                    assert(after[p1->0] == tables[p1->0]);
                }
            }
        }
    }
}

/// The way from `root` to `page` ends at entry `index` of the table of level 1 in `table`.
pub open spec fn ends_at(tables: Tables, root: u64, page: u64, table: u64, index: int) -> bool {
    p1_of(tables, root, page) == Some(table) && table_index(page, 1) == index
}

/// The recursive entries of the root tables in `after` are those in `before`.
pub open spec fn same_roots(before: Tables, after: Tables, levels: Levels) -> bool {
    forall|f: u64|
        before.contains_key(f) && levels[f] == 4 ==> #[trigger] next_of(after, Some(f), 511)
            == next_of(before, Some(f), 511) && after.contains_key(f)
}

/// Making an entry of a table of level 1 that was not present map a frame keeps the trees
/// sound, maps the pages whose way ends at the entry, and no other page anew or elsewhere.
pub proof fn lemma_set_leaf(
    tables: Tables,
    levels: Levels,
    parents: Parents,
    table: u64,
    index: int,
    frame: u64,
    flags: u64,
)
    requires
        tables_wf(tables, levels, parents),
        tables.contains_key(table),
        levels[table] == 1,
        0 <= index < 512,
        !word_present(tables[table][index]),
        frame < FRAME_LIMIT,
        flags & !FLAGS_MASK == 0,
        flags & PRESENT != 0,
    ensures
        tables_wf(
            tables.insert(table, table_with_leaf(tables[table], index, frame, flags)),
            levels,
            parents,
        ),
        same_roots(
            tables,
            tables.insert(table, table_with_leaf(tables[table], index, frame, flags)),
            levels,
        ),
        forall|root: u64, page: u64|
            tables.contains_key(root) && levels[root] == 4 && user_page(page) ==> #[trigger] leaf(
                tables.insert(table, table_with_leaf(tables[table], index, frame, flags)),
                root,
                page,
            ) == if ends_at(tables, root, page, table, index) {
                Some(Leaf { level: 1, frame, flags })
            } else {
                leaf(tables, root, page)
            },
        forall|root: u64, page: u64|
            tables.contains_key(root) && levels[root] == 4 && user_page(page)
                ==> #[trigger] same_way(
                tables,
                tables.insert(table, table_with_leaf(tables[table], index, frame, flags)),
                root,
                page,
            ),
{
    let after = tables.insert(table, table_with_leaf(tables[table], index, frame, flags));
    lemma_table_with_leaf(tables[table], 1, index, frame, flags);
    assert forall|f: u64| #[trigger] after.contains_key(f) implies table_ok(after, levels, f) by {
        if f != table {
            assert(tables.contains_key(f));
        }
    }
    assert forall|f: u64, j: int| #[trigger] links(after, levels, f, j) implies child_ok(
        after,
        levels,
        parents,
        f,
        j,
    ) by {
        assert(f != table);
        assert(links(tables, levels, f, j));
    }
    assert forall|f: u64| tables.contains_key(f) && levels[f] == 4 implies #[trigger] next_of(
        after,
        Some(f),
        511,
    ) == next_of(tables, Some(f), 511) && after.contains_key(f) by {}
    assert forall|root: u64, page: u64|
        tables.contains_key(root) && levels[root] == 4 && user_page(page) implies #[trigger] leaf(
        after,
        root,
        page,
    ) == if ends_at(tables, root, page, table, index) {
        Some(Leaf { level: 1, frame, flags })
    } else {
        leaf(tables, root, page)
    } by {
        lemma_path(tables, levels, parents, root, page);
        lemma_table_indices(page, page);
        let i1 = table_index(page, 1) as int;
        let p1 = p1_of(tables, root, page);
        if p1 == Some(table) && i1 != index {
            lemma_same_payload(after[table][i1], tables[table][i1]);
        }
        assert(after.dom() =~= tables.dom());
        lemma_leaf_way(tables, after, levels, parents, root, page, table);
    }
    assert forall|root: u64, page: u64|
        tables.contains_key(root) && levels[root] == 4 && user_page(page) implies #[trigger] same_way(
        tables,
        after,
        root,
        page,
    ) by {
        assert(after.dom() =~= tables.dom());
        lemma_leaf_way(tables, after, levels, parents, root, page, table);
    }
}

/// Where `after` differs from `before` in the table of level 1 in `table` alone, the ways
/// from a root to a page are the same in both.
proof fn lemma_leaf_way(
    before: Tables,
    after: Tables,
    levels: Levels,
    parents: Parents,
    root: u64,
    page: u64,
    table: u64,
)
    requires
        tables_wf(before, levels, parents),
        before.contains_key(root),
        levels[root] == 4,
        user_page(page),
        before.contains_key(table),
        levels[table] == 1,
        after.dom() =~= before.dom(),
        forall|f: u64| before.contains_key(f) && f != table ==> #[trigger] after[f] == before[f],
    ensures
        p3_of(after, root, page) == p3_of(before, root, page),
        p2_of(after, root, page) == p2_of(before, root, page),
        p1_of(after, root, page) == p1_of(before, root, page),
        p1_of(before, root, page) != Some(table) ==> leaf(after, root, page) == leaf(
            before,
            root,
            page,
        ),
{
    lemma_path(before, levels, parents, root, page);
    lemma_table_indices(page, page);
    assert(after.contains_key(root));
    if p3_of(before, root, page) is Some {
        assert(after.contains_key(p3_of(before, root, page)->0));
        if p2_of(before, root, page) is Some {
            assert(after.contains_key(p2_of(before, root, page)->0));
            if p1_of(before, root, page) is Some {
                assert(after.contains_key(p1_of(before, root, page)->0));
            }
        }
    }
}

/// Clearing an entry of a table of level 1 that was present keeps the trees sound, unmaps
/// the pages whose way ends at the entry, and leaves every other page as it was.
pub proof fn lemma_clear_leaf(
    tables: Tables,
    levels: Levels,
    parents: Parents,
    table: u64,
    index: int,
)
    requires
        tables_wf(tables, levels, parents),
        tables.contains_key(table),
        levels[table] == 1,
        0 <= index < 512,
        word_present(tables[table][index]),
    ensures
        table_count(tables[table]) >= 1,
        tables_wf(tables.insert(table, table_without(tables[table], index)), levels, parents),
        same_roots(tables, tables.insert(table, table_without(tables[table], index)), levels),
        forall|root: u64, page: u64|
            tables.contains_key(root) && levels[root] == 4 && user_page(page) ==> #[trigger] leaf(
                tables.insert(table, table_without(tables[table], index)),
                root,
                page,
            ) == if ends_at(tables, root, page, table, index) {
                None
            } else {
                leaf(tables, root, page)
            },
        forall|root: u64, page: u64|
            tables.contains_key(root) && levels[root] == 4 && user_page(page)
                ==> #[trigger] same_way(
                tables,
                tables.insert(table, table_without(tables[table], index)),
                root,
                page,
            ),
{
    let after = tables.insert(table, table_without(tables[table], index));
    lemma_table_without(tables[table], 1, index);
    assert forall|f: u64| #[trigger] after.contains_key(f) implies table_ok(after, levels, f) by {
        if f != table {
            assert(tables.contains_key(f));
        }
    }
    assert forall|f: u64, j: int| #[trigger] links(after, levels, f, j) implies child_ok(
        after,
        levels,
        parents,
        f,
        j,
    ) by {
        assert(f != table);
        assert(links(tables, levels, f, j));
    }
    assert forall|f: u64| tables.contains_key(f) && levels[f] == 4 implies #[trigger] next_of(
        after,
        Some(f),
        511,
    ) == next_of(tables, Some(f), 511) && after.contains_key(f) by {}
    assert forall|root: u64, page: u64|
        tables.contains_key(root) && levels[root] == 4 && user_page(page) implies #[trigger] leaf(
        after,
        root,
        page,
    ) == if ends_at(tables, root, page, table, index) {
        None
    } else {
        leaf(tables, root, page)
    } by {
        lemma_path(tables, levels, parents, root, page);
        lemma_table_indices(page, page);
        let i1 = table_index(page, 1) as int;
        let p1 = p1_of(tables, root, page);
        if p1 == Some(table) && i1 != index {
            lemma_same_payload(after[table][i1], tables[table][i1]);
        }
        if p1 == Some(table) && i1 == index {
            let p2 = p2_of(tables, root, page);
            assert(word_leads_on(tables[p2->0][table_index(page, 2) as int]));
        }
        assert(after.dom() =~= tables.dom());
        lemma_leaf_way(tables, after, levels, parents, root, page, table);
    }
    assert forall|root: u64, page: u64|
        tables.contains_key(root) && levels[root] == 4 && user_page(page) implies #[trigger] same_way(
        tables,
        after,
        root,
        page,
    ) by {
        assert(after.dom() =~= tables.dom());
        lemma_leaf_way(tables, after, levels, parents, root, page, table);
    }
}

/// Clearing an entry that leads to a table of which no entry is present keeps the trees
/// sound and leaves every page as it was; no entry then leads to that table.
pub proof fn lemma_clear_link(
    tables: Tables,
    levels: Levels,
    parents: Parents,
    table: u64,
    index: int,
)
    requires
        tables_wf(tables, levels, parents),
        links(tables, levels, table, index),
        table_count(tables[word_frame(tables[table][index])]) == 0,
    ensures
        table_count(tables[table]) >= 1,
        tables_wf(tables.insert(table, table_without(tables[table], index)), levels, parents),
        same_roots(tables, tables.insert(table, table_without(tables[table], index)), levels),
        forall|f: u64, j: int| #[trigger]
            links(tables.insert(table, table_without(tables[table], index)), levels, f, j)
                ==> word_frame(tables.insert(table, table_without(tables[table], index))[f][j])
                != word_frame(tables[table][index]),
        forall|root: u64, page: u64|
            tables.contains_key(root) && levels[root] == 4 && user_page(page) ==> #[trigger] leaf(
                tables.insert(table, table_without(tables[table], index)),
                root,
                page,
            ) == leaf(tables, root, page),
{
    let after = tables.insert(table, table_without(tables[table], index));
    let level = levels[table];
    let child = word_frame(tables[table][index]);
    assert(child_ok(tables, levels, parents, table, index));
    lemma_table_without(tables[table], level, index);
    lemma_present_upto(tables[child], levels[child], 512);
    assert forall|f: u64| #[trigger] after.contains_key(f) implies table_ok(after, levels, f) by {
        if f != table {
            assert(tables.contains_key(f));
        }
    }
    assert forall|f: u64, j: int| #[trigger] links(after, levels, f, j) implies child_ok(
        after,
        levels,
        parents,
        f,
        j,
    ) && word_frame(after[f][j]) != child by {
        if f == table {
            lemma_same_payload(after[f][j], tables[f][j]);
        }
        assert(links(tables, levels, f, j));
    }
    assert forall|f: u64| tables.contains_key(f) && levels[f] == 4 implies #[trigger] next_of(
        after,
        Some(f),
        511,
    ) == next_of(tables, Some(f), 511) && after.contains_key(f) by {
        if f == table {
            lemma_same_payload(after[f][511], tables[f][511]);
        }
    }
    assert forall|root: u64, page: u64|
        tables.contains_key(root) && levels[root] == 4 && user_page(page) implies #[trigger] leaf(
        after,
        root,
        page,
    ) == leaf(tables, root, page) by {
        lemma_clear_link_leaf(tables, levels, parents, table, index, root, page);
    }
}

/// Clearing an entry that leads to a table of which no entry is present leaves the leaf of
/// each page as it was.
proof fn lemma_clear_link_leaf(
    tables: Tables,
    levels: Levels,
    parents: Parents,
    table: u64,
    index: int,
    root: u64,
    page: u64,
)
    requires
        tables_wf(tables, levels, parents),
        links(tables, levels, table, index),
        table_count(tables[word_frame(tables[table][index])]) == 0,
        tables.contains_key(root),
        levels[root] == 4,
        user_page(page),
    ensures
        leaf(tables.insert(table, table_without(tables[table], index)), root, page) == leaf(
            tables,
            root,
            page,
        ),
{
    let after = tables.insert(table, table_without(tables[table], index));
    let level = levels[table];
    let child = word_frame(tables[table][index]);
    assert(child_ok(tables, levels, parents, table, index));
    lemma_table_without(tables[table], level, index);
    lemma_present_upto(tables[child], levels[child], 512);
    lemma_path(tables, levels, parents, root, page);
    lemma_table_indices(page, page);
    let i4 = table_index(page, 4) as int;
    let i3 = table_index(page, 3) as int;
    let i2 = table_index(page, 2) as int;
    let i1 = table_index(page, 1) as int;
    let p3 = p3_of(tables, root, page);
    let p2 = p2_of(tables, root, page);
    let p1 = p1_of(tables, root, page);
    let hit4 = root == table && i4 == index;
    let hit3 = p3 == Some(table) && i3 == index;
    let hit2 = p2 == Some(table) && i2 == index;
    if hit4 {
        // the way led into the empty table, and now ends at the entry
        assert(p3 == Some(child));
        assert(!word_present(tables[child][i3]));
        assert(p3_of(after, root, page) is None);
    } else {
        lemma_same_payload(after[root][i4], tables[root][i4]);
        assert(p3_of(after, root, page) == p3);
        if hit3 {
            assert(p2 == Some(child));
            assert(!word_present(tables[child][i2]));
            assert(p2_of(after, root, page) is None);
        } else {
            if p3 is Some {
                lemma_same_payload(after[p3->0][i3], tables[p3->0][i3]);
            }
            assert(p2_of(after, root, page) == p2);
            if hit2 {
                assert(p1 == Some(child));
                assert(!word_present(tables[child][i1]));
                assert(p1_of(after, root, page) is None);
            } else {
                if p2 is Some {
                    lemma_same_payload(after[p2->0][i2], tables[p2->0][i2]);
                }
                assert(p1_of(after, root, page) == p1);
                if p1 is Some {
                    assert(p1->0 != table);
                    assert(after[p1->0] == tables[p1->0]);
                }
            }
        }
    }
}

/// Taking a table that no entry leads to, and that is no root, out of memory keeps the trees
/// sound and leaves every page as it was.
pub proof fn lemma_release(tables: Tables, levels: Levels, parents: Parents, table: u64)
    requires
        tables_wf(tables, levels, parents),
        tables.contains_key(table),
        levels[table] < 4,
        forall|f: u64, j: int| #[trigger]
            links(tables, levels, f, j) ==> word_frame(tables[f][j]) != table,
    ensures
        tables_wf(tables.remove(table), levels, parents),
        same_roots(tables, tables.remove(table), levels),
        forall|root: u64, page: u64|
            tables.contains_key(root) && levels[root] == 4 && user_page(page) ==> #[trigger] leaf(
                tables.remove(table),
                root,
                page,
            ) == leaf(tables, root, page),
{
    let after = tables.remove(table);
    assert forall|f: u64| #[trigger] after.contains_key(f) implies table_ok(after, levels, f) by {
        assert(tables.contains_key(f));
    }
    assert forall|f: u64, j: int| #[trigger] links(after, levels, f, j) implies child_ok(
        after,
        levels,
        parents,
        f,
        j,
    ) by {
        assert(links(tables, levels, f, j));
    }
    assert forall|f: u64| tables.contains_key(f) && levels[f] == 4 implies #[trigger] next_of(
        after,
        Some(f),
        511,
    ) == next_of(tables, Some(f), 511) && after.contains_key(f) by {}
    assert forall|root: u64, page: u64|
        tables.contains_key(root) && levels[root] == 4 && user_page(page) implies #[trigger] leaf(
        after,
        root,
        page,
    ) == leaf(tables, root, page) by {
        lemma_path(tables, levels, parents, root, page);
        lemma_table_indices(page, page);
        let i4 = table_index(page, 4) as int;
        let i3 = table_index(page, 3) as int;
        let i2 = table_index(page, 2) as int;
        if p3_of(tables, root, page) is Some {
            assert(links(tables, levels, root, i4));
            if p2_of(tables, root, page) is Some {
                assert(links(tables, levels, p3_of(tables, root, page)->0, i3));
                if p1_of(tables, root, page) is Some {
                    assert(links(tables, levels, p2_of(tables, root, page)->0, i2));
                }
            }
        }
    }
}

/// Two ways that pass through the same table start at the same root.
pub proof fn lemma_shared_root(
    tables: Tables,
    levels: Levels,
    parents: Parents,
    root: u64,
    other_root: u64,
    p: u64,
    q: u64,
)
    requires
        tables_wf(tables, levels, parents),
        tables.contains_key(root),
        levels[root] == 4,
        tables.contains_key(other_root),
        levels[other_root] == 4,
        user_page(p),
        user_page(q),
    ensures
        p3_of(tables, root, p) is Some && p3_of(tables, root, p) == p3_of(tables, other_root, q)
            ==> root == other_root,
        p2_of(tables, root, p) is Some && p2_of(tables, root, p) == p2_of(tables, other_root, q)
            ==> root == other_root,
        p1_of(tables, root, p) is Some && p1_of(tables, root, p) == p1_of(tables, other_root, q)
            ==> root == other_root,
{
    lemma_path(tables, levels, parents, root, p);
    lemma_path(tables, levels, parents, other_root, q);
}

/// Writing the recursive entry of a root table keeps the trees sound and leaves every page
/// as it was.
pub proof fn lemma_set_recursive(
    tables: Tables,
    levels: Levels,
    parents: Parents,
    table: u64,
    target: u64,
)
    requires
        tables_wf(tables, levels, parents),
        tables.contains_key(table),
        levels[table] == 4,
        target < FRAME_LIMIT,
    ensures
        tables_wf(
            tables.insert(
                table,
                tables[table].update(511, word_set(tables[table][511], target, PRESENT | WRITABLE)),
            ),
            levels,
            parents,
        ),
        next_of(
            tables.insert(
                table,
                tables[table].update(511, word_set(tables[table][511], target, PRESENT | WRITABLE)),
            ),
            Some(table),
            511,
        ) == Some(target),
        forall|root: u64, page: u64|
            tables.contains_key(root) && levels[root] == 4 && user_page(page) ==> #[trigger] leaf(
                tables.insert(
                    table,
                    tables[table].update(
                        511,
                        word_set(tables[table][511], target, PRESENT | WRITABLE),
                    ),
                ),
                root,
                page,
            ) == leaf(tables, root, page),
{
    let words = tables[table].update(511, word_set(tables[table][511], target, PRESENT | WRITABLE));
    let after = tables.insert(table, words);
    lemma_flag_bits();
    lemma_word_set(tables[table][511], target, PRESENT | WRITABLE);
    crate::memory::paging::table::lemma_count_after_set(
        tables[table],
        511,
        target,
        PRESENT | WRITABLE,
    );
    assert forall|i: int| 0 <= i < 512 implies counted(4, i, #[trigger] words[i]) == counted(
        4,
        i,
        tables[table][i],
    ) by {}
    lemma_present_upto_same(words, tables[table], 4, 512);
    assert forall|f: u64| #[trigger] after.contains_key(f) implies table_ok(after, levels, f) by {
        if f != table {
            assert(tables.contains_key(f));
        }
    }
    assert forall|f: u64, j: int| #[trigger] links(after, levels, f, j) implies child_ok(
        after,
        levels,
        parents,
        f,
        j,
    ) by {
        assert(links(tables, levels, f, j));
    }
    assert forall|root: u64, page: u64|
        tables.contains_key(root) && levels[root] == 4 && user_page(page) implies #[trigger] leaf(
        after,
        root,
        page,
    ) == leaf(tables, root, page) by {
        lemma_path(tables, levels, parents, root, page);
        lemma_table_indices(page, page);
        assert(after.dom() =~= tables.dom());
        let i4 = table_index(page, 4) as int;
        assert(after[root][i4] == tables[root][i4]);
        if p3_of(tables, root, page) is Some {
            assert(after[p3_of(tables, root, page)->0] == tables[p3_of(tables, root, page)->0]);
            if p2_of(tables, root, page) is Some {
                assert(after[p2_of(tables, root, page)->0] == tables[p2_of(
                    tables,
                    root,
                    page,
                )->0]);
                if p1_of(tables, root, page) is Some {
                    assert(after[p1_of(tables, root, page)->0] == tables[p1_of(
                        tables,
                        root,
                        page,
                    )->0]);
                }
            }
        }
    }
}

/// Putting a new root table, empty but for its recursive entry, into a frame that held no
/// table keeps the trees sound and leaves every page as it was.
pub proof fn lemma_install_root(tables: Tables, levels: Levels, parents: Parents, frame: u64)
    requires
        tables_wf(tables, levels, parents),
        !tables.contains_key(frame),
        frame < FRAME_LIMIT,
    ensures
        tables_wf(
            tables.insert(
                frame,
                zero_table().update(511, word_set(0, frame, PRESENT | WRITABLE)),
            ),
            levels.insert(frame, 4),
            parents,
        ),
        forall|root: u64, page: u64|
            tables.contains_key(root) && levels[root] == 4 && user_page(page) ==> #[trigger] leaf(
                tables.insert(
                    frame,
                    zero_table().update(511, word_set(0, frame, PRESENT | WRITABLE)),
                ),
                root,
                page,
            ) == leaf(tables, root, page),
        forall|page: u64|
            user_page(page) ==> #[trigger] leaf(
                tables.insert(
                    frame,
                    zero_table().update(511, word_set(0, frame, PRESENT | WRITABLE)),
                ),
                frame,
                page,
            ) is None,
{
    let words = zero_table().update(511, word_set(0, frame, PRESENT | WRITABLE));
    let after = tables.insert(frame, words);
    let levels2 = levels.insert(frame, 4);
    lemma_flag_bits();
    lemma_word_set(0, frame, PRESENT | WRITABLE);
    lemma_word_ranges(0);
    lemma_zero_table_count(4);
    assert forall|i: int| 0 <= i < 512 implies !counted(4, i, #[trigger] words[i]) by {}
    lemma_present_upto(words, 4, 512);
    assert(table_count(words) == table_count(zero_table()));
    assert forall|f: u64| #[trigger] after.contains_key(f) implies table_ok(after, levels2, f) by {
        if f != frame {
            assert(tables.contains_key(f));
        }
    }
    assert forall|f: u64, j: int| #[trigger] links(after, levels2, f, j) implies child_ok(
        after,
        levels2,
        parents,
        f,
        j,
    ) by {
        if f != frame {
            assert(links(tables, levels, f, j));
        }
    }
    assert forall|root: u64, page: u64|
        tables.contains_key(root) && levels[root] == 4 && user_page(page) implies #[trigger] leaf(
        after,
        root,
        page,
    ) == leaf(tables, root, page) by {
        lemma_path(tables, levels, parents, root, page);
        lemma_table_indices(page, page);
    }
    assert forall|page: u64| user_page(page) implies #[trigger] leaf(after, frame, page)
        is None by {
        lemma_table_indices(page, page);
    }
}

/// Taking a root table out of memory keeps the trees sound and leaves the pages under every
/// other root as they were.
pub proof fn lemma_forget_root(tables: Tables, levels: Levels, parents: Parents, table: u64)
    requires
        tables_wf(tables, levels, parents),
        tables.contains_key(table),
        levels[table] == 4,
    ensures
        tables_wf(tables.remove(table), levels, parents),
        forall|root: u64, page: u64|
            tables.contains_key(root) && levels[root] == 4 && root != table && user_page(page)
                ==> #[trigger] leaf(tables.remove(table), root, page) == leaf(tables, root, page),
        forall|f: u64|
            tables.contains_key(f) && f != table ==> #[trigger] next_of(
                tables.remove(table),
                Some(f),
                511,
            ) == next_of(tables, Some(f), 511),
{
    let after = tables.remove(table);
    assert forall|f: u64| #[trigger] after.contains_key(f) implies table_ok(after, levels, f) by {
        assert(tables.contains_key(f));
    }
    assert forall|f: u64, j: int| #[trigger] links(after, levels, f, j) implies child_ok(
        after,
        levels,
        parents,
        f,
        j,
    ) by {
        assert(links(tables, levels, f, j));
    }
    assert forall|root: u64, page: u64|
        tables.contains_key(root) && levels[root] == 4 && root != table && user_page(
            page,
        ) implies #[trigger] leaf(after, root, page) == leaf(tables, root, page) by {
        lemma_path(tables, levels, parents, root, page);
        lemma_table_indices(page, page);
    }
}

/// The entry word `word` of a table of level `level` is one that mapping and unmapping leave
/// behind: unused, or present; above level 1 it leads on.
pub open spec fn word_clean(level: nat, word: u64) -> bool {
    word_unused(word) || (word_present(word) && (level == 1 || !word_huge(word)))
}

/// Every entry of every table is one that mapping and unmapping leave behind.
pub open spec fn tables_clean(tables: Tables, levels: Levels) -> bool {
    forall|f: u64, i: int|
        tables.contains_key(f) && 0 <= i < 512 ==> word_clean(levels[f], #[trigger] tables[f][i])
}

/// Tables that are clean stay clean where every entry keeps its frame and flags or becomes
/// an entry that is clean itself.
pub proof fn lemma_clean_kept(before: Tables, after: Tables, levels: Levels, levels_after: Levels)
    requires
        tables_clean(before, levels),
        forall|f: u64, i: int|
            after.contains_key(f) && 0 <= i < 512 ==> word_clean(
                levels_after[f],
                #[trigger] after[f][i],
            ) || (before.contains_key(f) && levels_after[f] == levels[f] && same_payload(
                after[f][i],
                before[f][i],
            )),
    ensures
        tables_clean(after, levels_after),
{
    assert forall|f: u64, i: int| after.contains_key(f) && 0 <= i < 512 implies word_clean(
        levels_after[f],
        #[trigger] after[f][i],
    ) by {
        if !word_clean(levels_after[f], after[f][i]) {
            lemma_same_payload(after[f][i], before[f][i]);
            assert(word_clean(levels[f], before[f][i]));
        }
    }
}

} // verus!
