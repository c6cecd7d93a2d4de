//! A store held in memory: the range query and the count query that the
//! pagination engine expects of its store, carried out on a list of
//! records, and the laws of paging that follow.

use crate::cursor::{cursor_of, lemma_key_representable, lemma_round_trip, representable};
use crate::error::PageError;
use crate::key::{
    conforms, lemma_precedes_asymmetric, lemma_precedes_irreflexive, lemma_precedes_total,
    lemma_precedes_transitive, precedes, Part, SortKey,
};
use crate::page::{
    build_connection, has_more, is_page, kept, page_model, row_models, window, Connection,
    PageModel, Row, RowModel,
};
use crate::plan::{
    boundary, effective_limit, plan, planned, Bound, PageRequest, Plan, QueryPlan, Range,
};
use vstd::prelude::*;
use vstd::seq_lib::*;

verus! {

/// No record comes before one that stands earlier in the list.
pub open spec fn ordered<T>(order: Seq<bool>, s: Seq<RowModel<T>>) -> bool {
    forall|i: int, j: int|
        0 <= i < j < s.len() ==> !precedes(order, (#[trigger] s[j]).key, (#[trigger] s[i]).key)
}

/// Every record comes before those that stand later in the list.
pub open spec fn strictly_sorted<T>(order: Seq<bool>, s: Seq<RowModel<T>>) -> bool {
    forall|i: int, j: int|
        0 <= i < j < s.len() ==> precedes(order, (#[trigger] s[i]).key, (#[trigger] s[j]).key)
}

/// Every record has one key part per field of the sort key, and each
/// part is one that a cursor can hold.
pub open spec fn conforming<T>(order: Seq<bool>, s: Seq<RowModel<T>>) -> bool {
    forall|i: int|
        0 <= i < s.len() ==> conforms(order, (#[trigger] s[i]).key) && representable(s[i].key)
}

/// No two records share a key value: the tie-break field is unique.
pub open spec fn distinct_keys<T>(s: Seq<RowModel<T>>) -> bool {
    forall|i: int, j: int| 0 <= i < j < s.len() ==> (#[trigger] s[i]).key != (#[trigger] s[j]).key
}

/// The first position from `i` on whose record comes strictly after `c`.
pub open spec fn upper<T>(order: Seq<bool>, s: Seq<RowModel<T>>, c: Seq<Part>, i: int) -> int
    decreases s.len() - i,
{
    if i >= s.len() || precedes(order, c, s[i].key) {
        i
    } else {
        upper(order, s, c, i + 1)
    }
}

/// The first position from `i` on whose record does not come strictly
/// before `c`.
pub open spec fn lower<T>(order: Seq<bool>, s: Seq<RowModel<T>>, c: Seq<Part>, i: int) -> int
    decreases s.len() - i,
{
    if i >= s.len() || !precedes(order, s[i].key, c) {
        i
    } else {
        lower(order, s, c, i + 1)
    }
}

/// The list with `row` put in before the first record that comes after it.
pub open spec fn inserted<T>(order: Seq<bool>, s: Seq<RowModel<T>>, row: RowModel<T>) -> Seq<RowModel<T>> {
    s.insert(upper(order, s, row.key, 0), row)
}

/// The records in the order of the sort key.
pub open spec fn sorted<T>(order: Seq<bool>, records: Seq<RowModel<T>>) -> Seq<RowModel<T>>
    decreases records.len(),
{
    if records.len() == 0 {
        Seq::empty()
    } else {
        inserted(order, sorted(order, records.drop_first()), records[0])
    }
}

/// `x` kept within `lo..=hi`.
pub open spec fn clip(x: int, lo: int, hi: int) -> int {
    if x < lo {
        lo
    } else if x > hi {
        hi
    } else {
        x
    }
}

/// What the range query of `plan` returns on the sorted list `s`, in the
/// order in which the store walks: the records after the cursor, or
/// those before it taken backwards from the cursor, or the records that
/// follow those left out; never more than the fetch limit.
pub open spec fn fetch<T>(order: Seq<bool>, s: Seq<RowModel<T>>, plan: Plan) -> Seq<RowModel<T>> {
    let n = s.len() as int;
    let most = clip(plan.fetch_limit(), 0, n);
    match plan.range {
        Range::All => {
            let a = clip(plan.skip, 0, n);
            s.subrange(a, clip(a + most, a, n))
        },
        Range::After(c) => {
            let a = upper(order, s, c, 0);
            s.subrange(a, clip(a + most, a, n))
        },
        Range::Before(c) => {
            let e = lower(order, s, c, 0);
            s.subrange(clip(e - most, 0, e), e).reverse()
        },
    }
}

/// What a request is answered with on the given records: the page, or
/// the reason there is none. The total is the number of records,
/// whatever the page.
pub open spec fn answer<T>(order: Seq<bool>, records: Seq<RowModel<T>>, request: PageRequest) -> Result<
    PageModel<T>,
    PageError,
> {
    match planned(order, request) {
        Err(e) => Err(e),
        Ok(p) => Ok(
            page_model(p, fetch(order, sorted(order, records), p), Some(records.len() as u64)),
        ),
    }
}

/// Where `upper` stops: nothing before it comes after `c`, and the record
/// it stops at does.
pub proof fn lemma_upper<T>(order: Seq<bool>, s: Seq<RowModel<T>>, c: Seq<Part>, i: int)
    requires
        0 <= i <= s.len(),
    ensures
        i <= upper(order, s, c, i) <= s.len(),
        forall|k: int| i <= k < upper(order, s, c, i) ==> !precedes(order, c, (#[trigger] s[k]).key),
        upper(order, s, c, i) < s.len() ==> precedes(order, c, s[upper(order, s, c, i)].key),
    decreases s.len() - i,
{
    if i < s.len() && !precedes(order, c, s[i].key) {
        lemma_upper(order, s, c, i + 1);
    }
}

/// Where `lower` stops: everything before it comes before `c`, and the
/// record it stops at does not.
pub proof fn lemma_lower<T>(order: Seq<bool>, s: Seq<RowModel<T>>, c: Seq<Part>, i: int)
    requires
        0 <= i <= s.len(),
    ensures
        i <= lower(order, s, c, i) <= s.len(),
        forall|k: int| i <= k < lower(order, s, c, i) ==> precedes(order, (#[trigger] s[k]).key, c),
        lower(order, s, c, i) < s.len() ==> !precedes(order, s[lower(order, s, c, i)].key, c),
    decreases s.len() - i,
{
    if i < s.len() && precedes(order, s[i].key, c) {
        lemma_lower(order, s, c, i + 1);
    }
}

/// Putting a record in keeps the list in order.
pub proof fn lemma_inserted_ordered<T>(order: Seq<bool>, s: Seq<RowModel<T>>, row: RowModel<T>)
    requires
        ordered(order, s),
    ensures
        ordered(order, inserted(order, s, row)),
        inserted(order, s, row).len() == s.len() + 1,
{
    let p = upper(order, s, row.key, 0);
    lemma_upper(order, s, row.key, 0);
    let t = inserted(order, s, row);
    s.insert_ensures(p, row);
    assert forall|i: int, j: int| 0 <= i < j < t.len() implies !precedes(
        order,
        (#[trigger] t[j]).key,
        (#[trigger] t[i]).key,
    ) by {
        if j == p {
            // t[i] is s[i], which does not come after the new record
            assert(t[i] == s[i]);
            assert(!precedes(order, row.key, s[i].key));
        } else if i == p {
            // t[j] is s[j - 1], at or after the record that comes after the new one
            assert(t[j] == s[j - 1]);
            lemma_precedes_asymmetric(order, row.key, s[p].key);
            if j - 1 > p && precedes(order, s[j - 1].key, row.key) {
                lemma_precedes_transitive(order, s[j - 1].key, row.key, s[p].key);
            }
        } else {
            let si = if i < p {
                i
            } else {
                i - 1
            };
            let sj = if j < p {
                j
            } else {
                j - 1
            };
            assert(t[i] == s[si]);
            assert(t[j] == s[sj]);
        }
    }
}

/// Sorting keeps every record and puts the list in order.
pub proof fn lemma_sorted_ordered<T>(order: Seq<bool>, records: Seq<RowModel<T>>)
    ensures
        ordered(order, sorted(order, records)),
        sorted(order, records).len() == records.len(),
        sorted(order, records).to_multiset() == records.to_multiset(),
    decreases records.len(),
{
    broadcast use {group_to_multiset_ensures, lemma_multiset_commutative};

    if records.len() == 0 {
        assert(records =~= Seq::empty());
    } else {
        let tail = records.drop_first();
        let s = sorted(order, tail);
        lemma_sorted_ordered(order, tail);
        lemma_inserted_ordered(order, s, records[0]);
        let p = upper(order, s, records[0].key, 0);
        lemma_upper(order, s, records[0].key, 0);
        let t = inserted(order, s, records[0]);
        assert(s =~= s.subrange(0, p) + s.subrange(p, s.len() as int));
        assert(t.to_multiset() =~= s.to_multiset().insert(records[0]));
        assert(records =~= seq![records[0]] + tail);
        assert(seq![records[0]] =~= Seq::empty().push(records[0]));
        assert(records.to_multiset() =~= tail.to_multiset().insert(records[0]));
    }
}


proof fn lemma_upper_skip<T>(order: Seq<bool>, s: Seq<RowModel<T>>, c: Seq<Part>, i: int, k: int)
    requires
        0 <= i <= k <= s.len(),
        forall|j: int| i <= j < k ==> !precedes(order, c, (#[trigger] s[j]).key),
    ensures
        upper(order, s, c, i) == upper(order, s, c, k),
    decreases k - i,
{
    if i < k {
        lemma_upper_skip(order, s, c, i + 1, k);
    }
}

proof fn lemma_lower_skip<T>(order: Seq<bool>, s: Seq<RowModel<T>>, c: Seq<Part>, i: int, k: int)
    requires
        0 <= i <= k <= s.len(),
        forall|j: int| i <= j < k ==> precedes(order, (#[trigger] s[j]).key, c),
    ensures
        lower(order, s, c, i) == lower(order, s, c, k),
    decreases k - i,
{
    if i < k {
        lemma_lower_skip(order, s, c, i + 1, k);
    }
}

fn find_upper<T>(order: &SortKey, s: &Vec<Row<T>>, c: &crate::key::SortKeyValue) -> (i: usize)
    ensures
        i == upper(order@, row_models(s@), c@, 0),
        i <= s@.len(),
{
    let mut i: usize = 0;
    while i < s.len() && !order.precedes(c, &s[i].key)
        invariant
            i <= s@.len(),
            forall|j: int| 0 <= j < i ==> !precedes(order@, c@, (#[trigger] row_models(s@)[j]).key),
        decreases s@.len() - i,
    {
        assert(row_models(s@)[i as int].key == s@[i as int].key@);
        i += 1;
    }
    proof {
        if i < s@.len() {
            assert(row_models(s@)[i as int].key == s@[i as int].key@);
        }
        lemma_upper_skip(order@, row_models(s@), c@, 0, i as int);
    }
    i
}

fn find_lower<T>(order: &SortKey, s: &Vec<Row<T>>, c: &crate::key::SortKeyValue) -> (i: usize)
    ensures
        i == lower(order@, row_models(s@), c@, 0),
        i <= s@.len(),
{
    let mut i: usize = 0;
    while i < s.len() && order.precedes(&s[i].key, c)
        invariant
            i <= s@.len(),
            forall|j: int| 0 <= j < i ==> precedes(order@, (#[trigger] row_models(s@)[j]).key, c@),
        decreases s@.len() - i,
    {
        assert(row_models(s@)[i as int].key == s@[i as int].key@);
        i += 1;
    }
    proof {
        if i < s@.len() {
            assert(row_models(s@)[i as int].key == s@[i as int].key@);
        }
        lemma_lower_skip(order@, row_models(s@), c@, 0, i as int);
    }
    i
}

/// Puts the records in the order of the sort key.
pub fn sort_rows<T>(order: &SortKey, records: Vec<Row<T>>) -> (out: Vec<Row<T>>)
    ensures
        row_models(out@) == sorted(order@, row_models(records@)),
{
    let ghost all = row_models(records@);
    let mut records = records;
    let mut out: Vec<Row<T>> = Vec::new();
    assert(all.skip(all.len() as int) =~= Seq::empty());
    assert(row_models(out@) =~= Seq::empty());
    assert(row_models(records@) =~= all.take(records@.len() as int));
    while records.len() > 0
        invariant
            records@.len() <= all.len(),
            row_models(records@) == all.take(records@.len() as int),
            row_models(out@) == sorted(order@, all.skip(records@.len() as int)),
        decreases records@.len(),
    {
        let ghost m = records@.len() as int;
        match records.pop() {
            Some(row) => {
                assert(row@ == all.take(m)[m - 1]);
                assert(row_models(records@) =~= all.take(m - 1));
                assert(all.skip(m - 1).drop_first() =~= all.skip(m));
                let at = find_upper(order, &out, &row.key);
                let ghost before = row_models(out@);
                out.insert(at, row);
                assert(row_models(out@) =~= before.insert(at as int, row@));
            },
            None => {},
        }
    }
    assert(all.skip(0) =~= all);
    out
}

/// Carries out the range query of `plan` on records that stand in the
/// order of the sort key.
pub fn fetch_rows<T>(order: &SortKey, sorted: Vec<Row<T>>, plan: &QueryPlan) -> (out: Vec<Row<T>>)
    ensures
        row_models(out@) == fetch(order@, row_models(sorted@), plan@),
{
    let ghost s = row_models(sorted@);
    let mut sorted = sorted;
    let n = sorted.len();
    let wanted: u64 = plan.fetch_limit();
    let most: usize = if wanted > n as u64 {
        n
    } else {
        wanted as usize
    };
    match &plan.bound {
        Bound::Before(c) => {
            let e = find_lower(order, &sorted, c);
            let a = if most > e {
                0
            } else {
                e - most
            };
            sorted.truncate(e);
            let mut part = sorted.split_off(a);
            let ghost walked = s.subrange(a as int, e as int);
            assert(row_models(part@) =~= walked);
            let mut out: Vec<Row<T>> = Vec::new();
            while part.len() > 0
                invariant
                    row_models(part@) == walked.take(part@.len() as int),
                    out@.len() + part@.len() == walked.len(),
                    forall|j: int|
                        0 <= j < out@.len() ==> (#[trigger] out@[j])@ == walked[walked.len() - 1
                            - j],
                decreases part@.len(),
            {
                let ghost m = part@.len() as int;
                match part.pop() {
                    Some(row) => {
                        assert(row@ == walked.take(m)[m - 1]);
                        assert(row_models(part@) =~= walked.take(m - 1));
                        out.push(row);
                    },
                    None => {},
                }
            }
            assert(row_models(out@) =~= walked.reverse());
            out
        },
        Bound::After(c) => {
            let a = find_upper(order, &sorted, c);
            let b = if most > n - a {
                n
            } else {
                a + most
            };
            let mut out = sorted.split_off(a);
            out.truncate(b - a);
            assert(row_models(out@) =~= s.subrange(a as int, b as int));
            out
        },
        Bound::All => {
            let a = if plan.skip as u64 > n as u64 {
                n
            } else {
                plan.skip as usize
            };
            let b = if most > n - a {
                n
            } else {
                a + most
            };
            let mut out = sorted.split_off(a);
            out.truncate(b - a);
            assert(row_models(out@) =~= s.subrange(a as int, b as int));
            out
        },
    }
}

/// `r` answers `request` on the given records.
pub open spec fn is_answer<T>(
    r: Result<Connection<T>, PageError>,
    order: Seq<bool>,
    records: Seq<RowModel<T>>,
    request: PageRequest,
) -> bool {
    match planned(order, request) {
        Err(e) => r == Err::<Connection<T>, PageError>(e),
        Ok(p) => r matches Ok(page) && is_page(
            page,
            p,
            fetch(order, sorted(order, records), p),
            Some(records.len() as u64),
        ),
    }
}

/// Answers a page request on records held in memory: plans the range
/// query, carries it out on the records in sort order, counts them, and
/// shapes the page.
///
/// `records` is the filtered set: every record that the query is about,
/// each with its key value under `order`.
pub fn paginate<T>(order: &SortKey, records: Vec<Row<T>>, request: &PageRequest) -> (r: Result<
    Connection<T>,
    PageError,
>)
    ensures
        is_answer(r, order@, row_models(records@), *request),
        r matches Ok(page) ==> page.edges@.len() <= effective_limit(*request),
{
    match plan(order, request) {
        Err(e) => Err(e),
        Ok(p) => {
            let total = records.len() as u64;
            let rows = fetch_rows(order, sort_rows(order, records), &p);
            Ok(build_connection(&p, rows, Some(total)))
        },
    }
}

/// Rows held in memory conform to the sort key once each has one part
/// per sort field: what they hold always fits a cursor.
pub proof fn lemma_rows_conform<T>(order: Seq<bool>, rows: Seq<Row<T>>)
    requires
        forall|i: int| 0 <= i < rows.len() ==> (#[trigger] rows[i]).key@.len() == order.len(),
    ensures
        conforming(order, row_models(rows)),
{
    assert forall|i: int| 0 <= i < rows.len() implies conforms(
        order,
        (#[trigger] row_models(rows)[i]).key,
    ) && representable(row_models(rows)[i].key) by {
        lemma_key_representable(&rows[i].key);
        assert(row_models(rows)[i].key == rows[i].key@);
    }
}

/// Records with distinct key values, one part per sort field each, come
/// out of sorting strictly ascending.
pub proof fn lemma_sorted_strict<T>(order: Seq<bool>, records: Seq<RowModel<T>>)
    requires
        conforming(order, records),
        distinct_keys(records),
    ensures
        strictly_sorted(order, sorted(order, records)),
        conforming(order, sorted(order, records)),
    decreases records.len(),
{
    broadcast use group_to_multiset_ensures;

    if records.len() > 0 {
        let first = records[0];
        let tail = records.drop_first();
        let s = sorted(order, tail);
        let t = inserted(order, s, first);
        assert(conforming(order, tail)) by {
            assert forall|i: int| 0 <= i < tail.len() implies conforms(
                order,
                (#[trigger] tail[i]).key,
            ) by {
                assert(tail[i] == records[i + 1]);
            }
        }
        assert(distinct_keys(tail)) by {
            assert forall|i: int, j: int| 0 <= i < j < tail.len() implies (#[trigger] tail[i]).key
                != (#[trigger] tail[j]).key by {
                assert(tail[i] == records[i + 1]);
                assert(tail[j] == records[j + 1]);
            }
        }
        lemma_sorted_strict(order, tail);
        lemma_sorted_ordered(order, tail);
        let p = upper(order, s, first.key, 0);
        lemma_upper(order, s, first.key, 0);
        s.insert_ensures(p, first);
        assert forall|i: int| 0 <= i < s.len() implies (#[trigger] s[i]).key != first.key by {
            assert(s.contains(s[i]));
            assert(tail.to_multiset().count(s[i]) > 0);
            assert(tail.contains(s[i]));
            let k = choose|k: int| 0 <= k < tail.len() && tail[k] == s[i];
            assert(tail[k] == records[k + 1]);
        }
        assert forall|i: int, j: int| 0 <= i < j < t.len() implies precedes(
            order,
            (#[trigger] t[i]).key,
            (#[trigger] t[j]).key,
        ) by {
            if j == p {
                assert(t[i] == s[i]);
                lemma_precedes_total(order, s[i].key, first.key);
            } else if i == p {
                assert(t[j] == s[j - 1]);
                if j - 1 > p {
                    lemma_precedes_transitive(order, first.key, s[p].key, s[j - 1].key);
                }
            } else {
                let si = if i < p {
                    i
                } else {
                    i - 1
                };
                let sj = if j < p {
                    j
                } else {
                    j - 1
                };
                assert(t[i] == s[si]);
                assert(t[j] == s[sj]);
            }
        }
        assert forall|i: int| 0 <= i < t.len() implies conforms(order, (#[trigger] t[i]).key) by {
            if i < p {
                assert(t[i] == s[i]);
            } else if i > p {
                assert(t[i] == s[i - 1]);
            }
        }
    }
}

/// The range after a cursor is exact: in a strictly ascending list the
/// records from `upper` on are those that come strictly after the
/// cursor's key value, and no others.
pub proof fn lemma_after_is_exact<T>(order: Seq<bool>, s: Seq<RowModel<T>>, c: Seq<Part>, i: int)
    requires
        strictly_sorted(order, s),
        0 <= i < s.len(),
    ensures
        precedes(order, c, s[i].key) <==> upper(order, s, c, 0) <= i,
{
    let u = upper(order, s, c, 0);
    lemma_upper(order, s, c, 0);
    if u < i {
        lemma_precedes_transitive(order, c, s[u].key, s[i].key);
    }
}

/// The range before a cursor is exact: in a strictly ascending list the
/// records up to `lower` are those that come strictly before the
/// cursor's key value, and no others.
pub proof fn lemma_before_is_exact<T>(order: Seq<bool>, s: Seq<RowModel<T>>, c: Seq<Part>, i: int)
    requires
        strictly_sorted(order, s),
        0 <= i < s.len(),
    ensures
        precedes(order, s[i].key, c) <==> i < lower(order, s, c, 0),
{
    let l = lower(order, s, c, 0);
    lemma_lower(order, s, c, 0);
    if l < i && precedes(order, s[i].key, c) {
        lemma_precedes_transitive(order, s[l].key, s[i].key, c);
    }
}

/// A cursor marks the position of its record: in a strictly ascending
/// list, what comes after the key value of the record at `i` starts at
/// `i + 1`, and what comes before it ends at `i`. No record is left out
/// or met twice at the boundary.
pub proof fn lemma_boundary_of_record<T>(order: Seq<bool>, s: Seq<RowModel<T>>, i: int)
    requires
        strictly_sorted(order, s),
        0 <= i < s.len(),
    ensures
        upper(order, s, s[i].key, 0) == i + 1,
        lower(order, s, s[i].key, 0) == i,
{
    let c = s[i].key;
    lemma_precedes_irreflexive(order, c);
    assert forall|k: int| 0 <= k < i + 1 implies !precedes(order, c, (#[trigger] s[k]).key) by {
        if k < i {
            lemma_precedes_asymmetric(order, s[k].key, c);
        }
    }
    lemma_upper_skip(order, s, c, 0, i + 1);
    lemma_lower_skip(order, s, c, 0, i);
}

/// Where the page of a plan begins in the sorted list.
pub open spec fn page_start<T>(order: Seq<bool>, s: Seq<RowModel<T>>, plan: Plan) -> int {
    let n = s.len() as int;
    match plan.range {
        Range::All => clip(plan.skip, 0, n),
        Range::After(c) => upper(order, s, c, 0),
        Range::Before(c) => clip(lower(order, s, c, 0) - plan.limit, 0, lower(order, s, c, 0)),
    }
}

/// Where the page of a plan ends in the sorted list.
pub open spec fn page_end<T>(order: Seq<bool>, s: Seq<RowModel<T>>, plan: Plan) -> int {
    let n = s.len() as int;
    match plan.range {
        Range::Before(c) => lower(order, s, c, 0),
        _ => clip(page_start(order, s, plan) + plan.limit, page_start(order, s, plan), n),
    }
}

/// The cursor of the plan, if it has one, is the position of a record
/// of the list.
pub open spec fn cursor_is_of_record<T>(s: Seq<RowModel<T>>, range: Range) -> bool {
    match range {
        Range::All => true,
        Range::After(c) => exists|k: int| 0 <= k < s.len() && (#[trigger] s[k]).key == c,
        Range::Before(c) => exists|k: int| 0 <= k < s.len() && (#[trigger] s[k]).key == c,
    }
}

/// The page is a stretch of the sorted list, and its flags are exact: a
/// next page is reported exactly when records lie beyond the end of the
/// page, and a previous page exactly when records lie before its start.
/// This holds of every plan without a cursor, empty sets included; of
/// every plan whose fetch returned no more than the page holds; and of
/// every plan whose cursor is the position of a record.
pub proof fn lemma_page_flags_are_exact<T>(order: Seq<bool>, s: Seq<RowModel<T>>, plan: Plan)
    requires
        strictly_sorted(order, s),
        s.len() <= u64::MAX,
        plan.limit >= 1,
        plan.skip >= 0,
        has_more(plan, fetch(order, s, plan)) ==> cursor_is_of_record(s, plan.range),
    ensures
        0 <= page_start(order, s, plan) <= page_end(order, s, plan) <= s.len(),
        window(plan, fetch(order, s, plan)) == s.subrange(
            page_start(order, s, plan),
            page_end(order, s, plan),
        ),
        crate::page::has_next(plan, fetch(order, s, plan), Some(s.len() as u64)) == (page_end(
            order,
            s,
            plan,
        ) < s.len()),
        crate::page::has_previous(plan, fetch(order, s, plan), Some(s.len() as u64)) == (
        page_start(order, s, plan) > 0),
{
    let n = s.len() as int;
    let got = fetch(order, s, plan);
    let from = page_start(order, s, plan);
    let to = page_end(order, s, plan);
    match plan.range {
        Range::All => {
            assert(window(plan, got) =~= s.subrange(from, to));
        },
        Range::After(c) => {
            lemma_upper(order, s, c, 0);
            if has_more(plan, got) {
                let k = choose|k: int| 0 <= k < s.len() && (#[trigger] s[k]).key == c;
                lemma_boundary_of_record(order, s, k);
            }
            assert(window(plan, got) =~= s.subrange(from, to));
        },
        Range::Before(c) => {
            lemma_lower(order, s, c, 0);
            if has_more(plan, got) {
                let k = choose|k: int| 0 <= k < s.len() && (#[trigger] s[k]).key == c;
                lemma_boundary_of_record(order, s, k);
            }
            let walked = s.subrange(clip(to - (plan.limit + 1), 0, to), to);
            assert(got == walked.reverse());
            let held = kept(plan, got);
            assert(window(plan, got) =~= s.subrange(from, to)) by {
                let w = window(plan, got);
                assert(w.len() == to - from);
                assert forall|i: int| 0 <= i < w.len() implies w[i] == s[from + i] by {
                    assert(w[i] == held[held.len() - 1 - i]);
                    assert(held[held.len() - 1 - i] == got[held.len() - 1 - i]);
                }
            }
        },
    }
}

/// An empty set has no page on either side, whatever is asked.
pub proof fn lemma_empty_set_has_no_neighbours<T>(order: Seq<bool>, plan: Plan)
    requires
        plan.limit >= 0,
    ensures
        !crate::page::has_next(
            plan,
            fetch(order, Seq::<RowModel<T>>::empty(), plan),
            Some(0u64),
        ),
        !crate::page::has_previous(
            plan,
            fetch(order, Seq::<RowModel<T>>::empty(), plan),
            Some(0u64),
        ),
        fetch(order, Seq::<RowModel<T>>::empty(), plan).len() == 0,
{
    let s = Seq::<RowModel<T>>::empty();
    match plan.range {
        Range::All => {},
        Range::After(c) => {
            lemma_upper(order, s, c, 0);
        },
        Range::Before(c) => {
            lemma_lower(order, s, c, 0);
        },
    }
}

/// Page-size bound: no page holds more records than the request's limit.
pub proof fn lemma_page_size_bound<T>(
    order: Seq<bool>,
    records: Seq<RowModel<T>>,
    request: PageRequest,
)
    ensures
        answer(order, records, request) matches Ok(page) ==> page.rows.len() <= effective_limit(request),
{
}

/// Total-count invariance: every page of the same records reports the
/// same total, the number of records.
pub proof fn lemma_total_count_invariant<T>(
    order: Seq<bool>,
    records: Seq<RowModel<T>>,
    one: PageRequest,
    other: PageRequest,
)
    ensures
        answer(order, records, one) matches Ok(p) ==> p.total_count == Some(records.len() as u64),
        answer(order, records, one) matches Ok(p) ==> (answer(order, records, other) matches Ok(q)
            ==> p.total_count == q.total_count),
{
}

/// Next/previous symmetry on a strictly ascending list: take a forward
/// page that has a next page, the page after its last record, and then
/// the page before that page's first record, all of one size. The last
/// of the three holds the records of the first, in the same order.
pub proof fn lemma_window_symmetry<T>(order: Seq<bool>, s: Seq<RowModel<T>>, first: Plan)
    requires
        strictly_sorted(order, s),
        first.limit >= 1,
        first.skip >= 0,
        !first.reversed(),
        has_more(first, fetch(order, s, first)),
    ensures
        ({
            let page = window(first, fetch(order, s, first));
            let second = Plan { limit: first.limit, skip: 0, range: Range::After(page.last().key) };
            let next = window(second, fetch(order, s, second));
            let back = Plan { limit: first.limit, skip: 0, range: Range::Before(next[0].key) };
            &&& page.len() == first.limit
            &&& next.len() >= 1
            &&& window(back, fetch(order, s, back)) == page
        }),
{
    let n = s.len() as int;
    let size = first.limit;
    let got = fetch(order, s, first);
    let a = match first.range {
        Range::After(c) => upper(order, s, c, 0),
        _ => clip(first.skip, 0, n),
    };
    if let Range::After(c) = first.range {
        lemma_upper(order, s, c, 0);
    }
    assert(got.len() == size + 1);
    assert(a + size + 1 <= n);
    let page = window(first, got);
    assert(page =~= s.subrange(a, a + size));
    assert(page.last() == s[a + size - 1]);
    lemma_boundary_of_record(order, s, a + size - 1);
    let second = Plan { limit: size, skip: 0, range: Range::After(page.last().key) };
    let next = window(second, fetch(order, s, second));
    assert(next.len() >= 1);
    assert(next[0] == s[a + size]);
    lemma_boundary_of_record(order, s, a + size);
    let back = Plan { limit: size, skip: 0, range: Range::Before(next[0].key) };
    let walked = fetch(order, s, back);
    let from = clip(a + size - (size + 1), 0, a + size);
    assert(walked == s.subrange(from, a + size).reverse());
    let held = kept(back, walked);
    assert(held.len() == size);
    assert(window(back, walked) =~= page) by {
        let w = window(back, walked);
        assert(w.len() == size);
        assert forall|i: int| 0 <= i < size implies w[i] == page[i] by {
            assert(w[i] == held[size - 1 - i]);
            assert(held[size - 1 - i] == walked[size - 1 - i]);
        }
    }
}

/// Next/previous symmetry for requests: on records with distinct key
/// values, page forward, then ask for what comes after the end cursor
/// of that page, and where that next page is not empty ask for what
/// comes before the cursor of its first edge, with one limit throughout.
/// The last answer holds the records of the first page, edge for edge.
/// Along a chain of forward pages this gives, from any page, the page
/// before it.
pub proof fn lemma_next_previous_symmetry<T>(
    order: Seq<bool>,
    records: Seq<RowModel<T>>,
    first: PageRequest,
    second: PageRequest,
    back: PageRequest,
)
    requires
        conforming(order, records),
        distinct_keys(records),
        first.after is Some || first.before is None,
        answer(order, records, first) matches Ok(p) && p.rows.len() > 0,
        second.limit == first.limit,
        second.after matches Some(token) && token@ == cursor_of(
            answer(order, records, first)->Ok_0.rows.last().key,
        ),
        back.limit == first.limit,
        back.after is None,
        answer(order, records, second) matches Ok(q) && q.rows.len() > 0 && (
        back.before matches Some(token) && token@ == cursor_of(q.rows[0].key)),
    ensures
        answer(order, records, first)->Ok_0.has_next_page,
        answer(order, records, back) matches Ok(r) && r.rows == answer(
            order,
            records,
            first,
        )->Ok_0.rows,
{
    let s = sorted(order, records);
    let n = s.len() as int;
    lemma_sorted_strict(order, records);
    lemma_sorted_ordered(order, records);
    let opening = planned(order, first)->Ok_0;
    let got = fetch(order, s, opening);
    let page = window(opening, got);
    let last = page.last();
    let a = match opening.range {
        Range::After(c) => upper(order, s, c, 0),
        _ => clip(opening.skip, 0, n),
    };
    if let Range::After(c) = opening.range {
        lemma_upper(order, s, c, 0);
    }
    let e = clip(a + opening.limit, a, n);
    assert(page =~= s.subrange(a, e));
    assert(last == s[e - 1]);
    lemma_round_trip(last.key);
    assert(boundary(order, cursor_of(last.key)) == Some(last.key));
    let following = planned(order, second)->Ok_0;
    assert(following == (Plan { limit: opening.limit, skip: 0, range: Range::After(last.key) }));
    lemma_boundary_of_record(order, s, e - 1);
    let next = window(following, fetch(order, s, following));
    assert(e < n);
    assert(has_more(opening, got));
    lemma_window_symmetry(order, s, opening);
    let head = next[0];
    assert(head == s[a + opening.limit]);
    lemma_round_trip(head.key);
    assert(boundary(order, cursor_of(head.key)) == Some(head.key));
}

} // verus!
