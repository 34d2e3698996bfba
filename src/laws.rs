use vstd::prelude::*;
use crate::order::{
    after, group_key_order, is_page, key_lt, keys_distinct, lemma_key_lt_total, Key,
};
use crate::types::UserId;
use vstd::set_lib::{lemma_int_range, lemma_len_subset, set_int_range};
use vstd::seq_lib::seq_to_set_is_finite;
use crate::table::{
    all_eligible, listed, same_except, scrubbed, search_keys, search_rank, table_keys, table_listed,
    StoredUser, SEARCH_LIMIT,
};

verus! {

/// Consecutive pages concatenate: a non-empty page of `k1` entries after `cursor`, followed
/// by the page of `k2` entries after its last key, is the page of `k1 + k2` entries after
/// `cursor`. Paging to the end thus yields every eligible entry once, in key order.
pub proof fn lemma_pages_concatenate(
    keys: Seq<Key>,
    elig: Seq<bool>,
    cursor: Option<Key>,
    k1: int,
    k2: int,
    first: Seq<usize>,
    second: Seq<usize>,
)
    requires
        keys.len() == elig.len(),
        keys_distinct(keys, elig),
        is_page(keys, elig, cursor, k1, first),
        first.len() > 0,
        is_page(keys, elig, Some(keys[first.last() as int]), k2, second),
    ensures
        is_page(keys, elig, cursor, k1 + k2, first + second),
{
    broadcast use group_key_order;

    let both = first + second;
    let last1 = keys[first.last() as int];
    assert(after(last1, cursor));
    assert forall|j: int| 0 <= j < both.len() implies {
        &&& both[j] < keys.len()
        &&& elig[both[j] as int]
        &&& after(keys[both[j] as int], cursor)
    } by {
        if j >= first.len() {
            assert(both[j] == second[j - first.len()]);
            assert(key_lt(last1, keys[both[j] as int]));
        }
    }
    assert forall|j1: int, j2: int| 0 <= j1 < j2 < both.len() implies key_lt(
        keys[both[j1] as int],
        keys[both[j2] as int],
    ) by {
        if j2 >= first.len() {
            assert(both[j2] == second[j2 - first.len()]);
            assert(key_lt(last1, keys[both[j2] as int]));
            if j1 < first.len() {
                if j1 < first.len() - 1 {
                    assert(key_lt(keys[first[j1] as int], last1));
                }
            } else {
                assert(both[j1] == second[j1 - first.len()]);
            }
        }
    }
    assert forall|i: int|
        0 <= i < keys.len() && elig[i] && after(keys[i], cursor) && (both.len() < k1 + k2 || (
        both.len() > 0 && !key_lt(keys[both.last() as int], keys[i]))) implies exists|j: int|
        0 <= j < both.len() && both[j] == i by {
        if !key_lt(last1, keys[i]) && keys[i] != last1 {
            lemma_key_lt_total(last1, keys[i]);
        }
        if !key_lt(last1, keys[i]) {
            if keys[i] == last1 {
                assert(both[first.len() - 1] == i);
            } else {
                let j = choose|j: int| 0 <= j < first.len() && first[j] == i;
                assert(both[j] == i);
            }
        } else if first.len() < k1 {
            let j = choose|j: int| 0 <= j < first.len() && first[j] == i;
            assert(both[j] == i);
        } else {
            if second.len() > 0 {
                assert(both.last() == second.last());
            } else {
                assert(both.last() == first.last());
            }
            let j = choose|j: int| 0 <= j < second.len() && second[j] == i;
            assert(both[first.len() + j] == i);
        }
    }
}

/// Indices of the eligible entries whose key lies after the cursor.
pub open spec fn remaining(keys: Seq<Key>, elig: Seq<bool>, cursor: Option<Key>) -> Set<int> {
    Set::new(|i: int| 0 <= i < keys.len() && elig[i] && after(keys[i], cursor))
}

/// A page holds `min(size, n)` entries, where `n` is the number of eligible entries after its
/// cursor, and each of them once.
pub proof fn lemma_page_len(
    keys: Seq<Key>,
    elig: Seq<bool>,
    cursor: Option<Key>,
    size: int,
    out: Seq<usize>,
)
    requires
        keys.len() == elig.len(),
        size >= 0,
        is_page(keys, elig, cursor, size, out),
    ensures
        remaining(keys, elig, cursor).finite(),
        out.len() == if size < remaining(keys, elig, cursor).len() {
            size
        } else {
            remaining(keys, elig, cursor).len() as int
        },
        forall|j1: int, j2: int| 0 <= j1 < j2 < out.len() ==> out[j1] != out[j2],
{
    broadcast use group_key_order;

    let r = remaining(keys, elig, cursor);
    lemma_int_range(0, keys.len() as int);
    lemma_len_subset(r, set_int_range(0, keys.len() as int));
    let o = out.map_values(|x: usize| x as int);
    assert forall|j1: int, j2: int| 0 <= j1 < j2 < out.len() implies out[j1] != out[j2] by {
        assert(key_lt(keys[out[j1] as int], keys[out[j2] as int]));
    }
    assert(o.no_duplicates()) by {
        assert forall|j1: int, j2: int| 0 <= j1 < o.len() && 0 <= j2 < o.len() && j1 != j2
            implies o[j1] != o[j2] by {
            if j1 < j2 {
                assert(out[j1] != out[j2]);
            } else {
                assert(out[j2] != out[j1]);
            }
        }
    }
    o.unique_seq_to_set();
    seq_to_set_is_finite(o);
    assert(o.to_set().subset_of(r)) by {
        assert forall|x: int| o.to_set().contains(x) implies r.contains(x) by {
            let j = choose|j: int| 0 <= j < o.len() && o[j] == x;
            assert(o[j] == out[j] as int);
        }
    }
    lemma_len_subset(o.to_set(), r);
    if out.len() < size {
        assert(r.subset_of(o.to_set())) by {
            assert forall|x: int| r.contains(x) implies o.to_set().contains(x) by {
                let j = choose|j: int| 0 <= j < out.len() && out[j] == x;
                assert(o[j] == x);
            }
        }
        lemma_len_subset(r, o.to_set());
    }
}

/// The pages of a walk, concatenated in order: the first `m` of them.
pub open spec fn concat_pages(pages: Seq<Seq<usize>>, m: int) -> Seq<usize>
    decreases m,
{
    if m <= 0 {
        Seq::empty()
    } else {
        concat_pages(pages, m - 1) + pages[m - 1]
    }
}

/// A caller's walk through the pages of size `size`: the first page starts at the beginning,
/// each later one after the last key of the page before it, every page but the last is
/// non-empty and the last is empty.
pub open spec fn is_walk(keys: Seq<Key>, elig: Seq<bool>, size: int, pages: Seq<Seq<usize>>) -> bool {
    &&& pages.len() >= 1
    &&& is_page(keys, elig, None, size, pages[0])
    &&& forall|m: int|
        0 <= m < pages.len() - 1 ==> {
            &&& (#[trigger] pages[m]).len() > 0
            &&& is_page(keys, elig, Some(keys[pages[m].last() as int]), size, pages[m + 1])
        }
    &&& pages.last().len() == 0
}

/// `j * size`, by repeated addition.
spec fn times(j: int, size: int) -> int
    decreases j,
{
    if j <= 0 {
        0
    } else {
        times(j - 1, size) + size
    }
}

proof fn lemma_times(j: int, size: int)
    requires
        j >= 0,
    ensures
        times(j, size) == j * size,
    decreases j,
{
    if j > 0 {
        lemma_times(j - 1, size);
        assert((j - 1) * size + size == j * size) by (nonlinear_arith);
        assert(times(j, size) == times(j - 1, size) + size);
    } else {
        assert(0 * size == 0) by (nonlinear_arith);
    }
}

proof fn lemma_walk_prefix(keys: Seq<Key>, elig: Seq<bool>, size: int, pages: Seq<Seq<usize>>, j: int)
    requires
        keys.len() == elig.len(),
        keys_distinct(keys, elig),
        size >= 1,
        is_walk(keys, elig, size, pages),
        1 <= j < pages.len(),
    ensures
        is_page(keys, elig, None, times(j, size), concat_pages(pages, j)),
        concat_pages(pages, j).len() > 0,
        concat_pages(pages, j).last() == pages[j - 1].last(),
        concat_pages(pages, j).len() == times(j - 1, size) + pages[j - 1].len(),
    decreases j,
{
    let c = concat_pages(pages, j);
    assert(pages[j - 1].len() > 0);
    assert(c.last() == pages[j - 1].last());
    if j == 1 {
        assert(concat_pages(pages, 0) =~= Seq::<usize>::empty());
        assert(c =~= pages[0]);
        reveal_with_fuel(times, 2);
        assert(times(1, size) == size);
    } else {
        lemma_walk_prefix(keys, elig, size, pages, j - 1);
        let prev = concat_pages(pages, j - 1);
        assert(c == prev + pages[j - 1]);
        assert(pages[j - 2].len() > 0);
        assert(is_page(keys, elig, Some(keys[pages[j - 2].last() as int]), size, pages[j - 1]));
        if pages[j - 2].len() < size {
            lemma_short_page_is_last(keys, elig, None, times(j - 1, size), size, prev, pages[j - 1]);
        }
        lemma_pages_concatenate(keys, elig, None, times(j - 1, size), size, prev, pages[j - 1]);
    }
}

/// Paging until the token runs out: a walk with `m` non-empty pages of size `size` ends after
/// exactly `ceil(n / size)` non-empty pages and one empty one, where `n` is the number of
/// eligible entries, and its pages together list every eligible entry once, in key order.
pub proof fn lemma_walk_complete(keys: Seq<Key>, elig: Seq<bool>, size: int, pages: Seq<Seq<usize>>)
    requires
        keys.len() == elig.len(),
        keys_distinct(keys, elig),
        size >= 1,
        is_walk(keys, elig, size, pages),
    ensures
        ({
            let m = pages.len() - 1;
            let n = remaining(keys, elig, None).len();
            &&& (m - 1) * size < n <= m * size || (m == 0 && n == 0)
            &&& concat_pages(pages, m).len() == n
            &&& is_page(keys, elig, None, m * size, concat_pages(pages, m))
        }),
{
    let m = pages.len() - 1;
    let n = remaining(keys, elig, None).len();
    if m == 0 {
        lemma_page_len(keys, elig, None, size, pages[0]);
        assert(concat_pages(pages, 0) =~= Seq::<usize>::empty());
        assert(is_page(keys, elig, None, 0, Seq::<usize>::empty()));
    } else {
        lemma_walk_prefix(keys, elig, size, pages, m);
        lemma_times(m, size);
        lemma_times(m - 1, size);
        let c = concat_pages(pages, m);
        assert(is_page(keys, elig, Some(keys[pages[m - 1].last() as int]), size, pages[m]));
        assert(pages[m] =~= Seq::<usize>::empty());
        lemma_pages_concatenate(keys, elig, None, m * size, size, c, pages[m]);
        assert(c + pages[m] =~= c);
        assert(m * size + size == (m + 1) * size) by (nonlinear_arith);
        assert((m - 1) * size + size == m * size) by (nonlinear_arith);
        lemma_page_len(keys, elig, None, (m + 1) * size, c);
        assert(pages[m - 1].len() <= size);
    }
}

/// Where every active record fits in one page, soft-deleting one of them makes the first
/// unfiltered page lose exactly that record.
pub proof fn lemma_delete_shrinks_page(
    old: Seq<StoredUser>,
    new: Seq<StoredUser>,
    k: int,
    now: i64,
    size: int,
    before: Seq<usize>,
    after_delete: Seq<usize>,
)
    requires
        0 <= k < old.len(),
        old[k].deleted_at is None,
        same_except(old, new, k),
        scrubbed(old[k], new[k], now),
        remaining(table_keys(old), table_listed(old, None, None), None).len() <= size,
        is_page(table_keys(old), table_listed(old, None, None), None, size, before),
        is_page(table_keys(new), table_listed(new, None, None), None, size, after_delete),
    ensures
        after_delete.len() + 1 == before.len(),
        forall|j: int| 0 <= j < after_delete.len() ==> after_delete[j] != k,
{
    let r1 = remaining(table_keys(old), table_listed(old, None, None), None);
    let r2 = remaining(table_keys(new), table_listed(new, None, None), None);
    assert(r2 =~= r1.remove(k)) by {
        assert forall|i: int| r2.contains(i) <==> r1.remove(k).contains(i) by {
            if 0 <= i < old.len() && i != k {
                assert(new[i] == old[i]);
            }
        }
    }
    lemma_page_len(table_keys(old), table_listed(old, None, None), None, size, before);
    lemma_page_len(table_keys(new), table_listed(new, None, None), None, size, after_delete);
    assert(r1.contains(k));
    vstd::set::axiom_set_remove_len(r1, k);
    assert forall|j: int| 0 <= j < after_delete.len() implies after_delete[j] != k by {
        assert(table_listed(new, None, None)[after_delete[j] as int]);
    }
}

/// A page shorter than its size is the last non-empty one: the page after it is empty.
pub proof fn lemma_short_page_is_last(
    keys: Seq<Key>,
    elig: Seq<bool>,
    cursor: Option<Key>,
    k1: int,
    k2: int,
    first: Seq<usize>,
    second: Seq<usize>,
)
    requires
        is_page(keys, elig, cursor, k1, first),
        0 < first.len() < k1,
        is_page(keys, elig, Some(keys[first.last() as int]), k2, second),
    ensures
        second.len() == 0,
{
    broadcast use group_key_order;

    let last1 = keys[first.last() as int];
    if second.len() > 0 {
        let i = second[0] as int;
        assert(key_lt(last1, keys[i]));
        assert(after(last1, cursor));
        assert(after(keys[i], cursor));
        let j = choose|j: int| 0 <= j < first.len() && first[j] == i;
        if j < first.len() - 1 {
            assert(key_lt(keys[first[j] as int], last1));
        }
    }
}

/// An empty page of positive size is the end: no eligible entry lies after its cursor.
pub proof fn lemma_empty_page_is_end(
    keys: Seq<Key>,
    elig: Seq<bool>,
    cursor: Option<Key>,
    size: int,
    out: Seq<usize>,
)
    requires
        size >= 1,
        is_page(keys, elig, cursor, size, out),
        out.len() == 0,
    ensures
        forall|i: int| 0 <= i < keys.len() && elig[i] ==> !after(keys[i], cursor),
{
}

/// A table whose only active record is at `p` lists exactly that record on the first page of
/// any positive size, when no filter is given; soft-deleted records do not show.
pub proof fn lemma_single_active_record_listed(rows: Seq<StoredUser>, p: int, size: int, out: Seq<usize>)
    requires
        0 <= p < rows.len(),
        rows[p].deleted_at is None,
        forall|i: int| 0 <= i < rows.len() && i != p ==> rows[i].deleted_at is Some,
        size >= 1,
        is_page(table_keys(rows), table_listed(rows, None, None), None, size, out),
    ensures
        out.len() == 1,
        out[0] == p,
{
    broadcast use group_key_order;

    let r = remaining(table_keys(rows), table_listed(rows, None, None), None);
    assert(r =~= set![p]);
    lemma_page_len(table_keys(rows), table_listed(rows, None, None), None, size, out);
    assert(table_listed(rows, None, None)[out[0] as int]);
}

/// Where some record holds the search term, the first search hit holds it too: records
/// that hold the term rank before those that do not.
pub proof fn lemma_search_match_ranks_first(
    rows: Seq<StoredUser>,
    term: Seq<char>,
    out: Seq<usize>,
    i: int,
)
    requires
        is_page(search_keys(rows, term), all_eligible(rows.len()), None, SEARCH_LIMIT as int, out),
        0 <= i < rows.len(),
        search_rank(rows[i], term) == 0,
    ensures
        out.len() > 0,
        search_rank(rows[out[0] as int], term) == 0,
{
    broadcast use group_key_order;

    reveal(key_lt);
    let keys = search_keys(rows, term);
    assert(all_eligible(rows.len())[i]);
    assert(after(keys[i], None));
    if out.len() == 0 {
        assert(exists|j: int| 0 <= j < out.len() && out[j] == i);
    }
    let r0 = search_rank(rows[out[0] as int], term);
    assert(keys[out[0] as int].0 == r0);
    if r0 != 0 {
        let last = out.last() as int;
        if out.len() > 1 {
            assert(key_lt(keys[out[0] as int], keys[last]));
        }
        assert(keys[last].0 >= r0);
        assert(!key_lt(keys[last], keys[i]));
        let j = choose|j: int| 0 <= j < out.len() && out[j] == i;
        if j > 0 {
            assert(key_lt(keys[out[0] as int], keys[out[j] as int]));
        }
    }
}

/// A soft-deleted record is never listed, whatever the filters.
pub proof fn lemma_deleted_not_listed(
    u: StoredUser,
    ids: Option<Seq<UserId>>,
    name: Option<Seq<char>>,
)
    requires
        u.deleted_at is Some,
    ensures
        !listed(u, ids, name),
{
}

/// Number of records that are not soft-deleted.
pub open spec fn active_count(rows: Seq<StoredUser>) -> nat
    decreases rows.len(),
{
    if rows.len() == 0 {
        0
    } else {
        active_count(rows.drop_last()) + if rows.last().deleted_at is None {
            1nat
        } else {
            0nat
        }
    }
}

/// Soft-deleting an active record lowers the number of active records by exactly one.
pub proof fn lemma_delete_lowers_active_count(
    old: Seq<StoredUser>,
    new: Seq<StoredUser>,
    k: int,
    now: i64,
)
    requires
        0 <= k < old.len(),
        old[k].deleted_at is None,
        same_except(old, new, k),
        scrubbed(old[k], new[k], now),
    ensures
        active_count(new) + 1 == active_count(old),
    decreases old.len(),
{
    let n = old.len() - 1;
    if k == n {
        assert(old.drop_last() =~= new.drop_last());
    } else {
        assert(same_except(old.drop_last(), new.drop_last(), k));
        lemma_delete_lowers_active_count(old.drop_last(), new.drop_last(), k, now);
        assert(old.last() == new.last());
    }
}

} // verus!
