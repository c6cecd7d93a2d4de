//! The pagination orchestrator: from the records that the store fetched
//! to the connection handed to the caller.

use crate::cursor::{cursor_of, encode};
use crate::error::{PageError, StoreError};
use crate::key::{Part, SortKeyValue};
use crate::plan::{Plan, QueryPlan, Range};
use vstd::prelude::*;

verus! {

/// One fetched record with its position in the sort order.
#[derive(Debug, PartialEq, Eq)]
pub struct Row<T> {
    pub key: SortKeyValue,
    pub node: T,
}

/// Mathematical model of a fetched record.
pub struct RowModel<T> {
    pub key: Seq<Part>,
    pub node: T,
}

impl<T> View for Row<T> {
    type V = RowModel<T>;

    open spec fn view(&self) -> RowModel<T> {
        RowModel { key: self.key@, node: self.node }
    }
}

/// The models of a list of fetched records.
pub open spec fn row_models<T>(rows: Seq<Row<T>>) -> Seq<RowModel<T>> {
    Seq::new(rows.len(), |i: int| rows[i]@)
}

/// One result item with the cursor of its position.
#[derive(Debug, PartialEq, Eq)]
pub struct Edge<T> {
    pub cursor: String,
    pub node: T,
}

/// Whether pages lie on either side, and the cursors of the page's ends.
#[derive(Debug, PartialEq, Eq)]
pub struct PageInfo {
    pub has_next_page: bool,
    pub has_previous_page: bool,
    pub start_cursor: Option<String>,
    pub end_cursor: Option<String>,
}

/// One page of a result set. `total_count` is the size of the whole
/// filtered set, or `None` where the count failed and was let go.
#[derive(Debug, PartialEq, Eq)]
pub struct Connection<T> {
    pub page_info: PageInfo,
    pub edges: Vec<Edge<T>>,
    pub total_count: Option<u64>,
}

/// What to do with a page whose count query failed.
#[derive(Clone, Copy, Debug, PartialEq, Eq, Structural)]
pub enum CountPolicy {
    /// Fail the whole request.
    Fail,
    /// Return the page without a total.
    Degrade,
}

impl Default for CountPolicy {
    /// A failed count fails the request unless told otherwise.
    fn default() -> (r: CountPolicy)
        ensures
            r == CountPolicy::Fail,
    {
        CountPolicy::Fail
    }
}

/// The store returned more than the page holds.
pub open spec fn has_more<A>(plan: Plan, rows: Seq<A>) -> bool {
    rows.len() > plan.limit
}

/// The fetched records without the one fetched only to see whether more
/// follow, in the order the store returned them.
pub open spec fn kept<A>(plan: Plan, rows: Seq<A>) -> Seq<A> {
    if 0 <= plan.limit < rows.len() {
        rows.take(plan.limit)
    } else {
        rows
    }
}

/// The records of the page in the natural sort order: a backward fetch is
/// turned round.
pub open spec fn window<A>(plan: Plan, rows: Seq<A>) -> Seq<A> {
    if plan.reversed() {
        kept(plan, rows).reverse()
    } else {
        kept(plan, rows)
    }
}

/// Whether records lie on the far side of the cursor from the page.
///
/// Where the store returned no more than the page holds, the fetched
/// records are all there is on the near side, so the far side holds
/// what the total has beyond them. Where it returned more, or the total
/// is not known, the cursor is taken to mark a record.
pub open spec fn beyond_cursor<A>(plan: Plan, rows: Seq<A>, total_count: Option<u64>) -> bool {
    if has_more(plan, rows) {
        true
    } else {
        match total_count {
            Some(n) => n > rows.len(),
            None => true,
        }
    }
}

/// Whether a page follows. Walking forward, one does where the store
/// returned more than the page holds; walking backward from a cursor,
/// where records lie at or after the cursor.
pub open spec fn has_next<A>(plan: Plan, rows: Seq<A>, total_count: Option<u64>) -> bool {
    match plan.range {
        Range::Before(_) => beyond_cursor(plan, rows, total_count),
        _ => has_more(plan, rows),
    }
}

/// Whether a page comes before. Walking backward, one does where the
/// store returned more than the page holds; walking forward from a
/// cursor, where records lie at or before the cursor; without a cursor,
/// where records were left out and the set is known not to be empty.
pub open spec fn has_previous<A>(plan: Plan, rows: Seq<A>, total_count: Option<u64>) -> bool {
    match plan.range {
        Range::After(_) => beyond_cursor(plan, rows, total_count),
        Range::Before(_) => has_more(plan, rows),
        Range::All => plan.skip > 0 && total_count != Some(0u64),
    }
}

/// Mathematical model of a page: its records in the natural sort order
/// and what it reports about its surroundings.
pub struct PageModel<T> {
    pub rows: Seq<RowModel<T>>,
    pub has_next_page: bool,
    pub has_previous_page: bool,
    pub total_count: Option<u64>,
}

/// The page for the records `rows` that the store returned for `plan`.
pub open spec fn page_model<T>(
    plan: Plan,
    rows: Seq<RowModel<T>>,
    total_count: Option<u64>,
) -> PageModel<T> {
    PageModel {
        rows: window(plan, rows),
        has_next_page: has_next(plan, rows, total_count),
        has_previous_page: has_previous(plan, rows, total_count),
        total_count,
    }
}

/// Mathematical model of an edge.
pub struct EdgeModel<T> {
    pub cursor: Seq<char>,
    pub node: T,
}

/// Mathematical model of a connection.
pub struct ConnectionModel<T> {
    pub edges: Seq<EdgeModel<T>>,
    pub has_next_page: bool,
    pub has_previous_page: bool,
    pub start_cursor: Option<Seq<char>>,
    pub end_cursor: Option<Seq<char>>,
    pub total_count: Option<u64>,
}

impl<T> View for Edge<T> {
    type V = EdgeModel<T>;

    open spec fn view(&self) -> EdgeModel<T> {
        EdgeModel { cursor: self.cursor@, node: self.node }
    }
}

/// The characters of a cursor, if there is one.
pub open spec fn token_view(cursor: Option<String>) -> Option<Seq<char>> {
    match cursor {
        Some(token) => Some(token@),
        None => None,
    }
}

impl<T> View for Connection<T> {
    type V = ConnectionModel<T>;

    open spec fn view(&self) -> ConnectionModel<T> {
        ConnectionModel {
            edges: Seq::new(self.edges@.len(), |i: int| self.edges@[i]@),
            has_next_page: self.page_info.has_next_page,
            has_previous_page: self.page_info.has_previous_page,
            start_cursor: token_view(self.page_info.start_cursor),
            end_cursor: token_view(self.page_info.end_cursor),
            total_count: self.total_count,
        }
    }
}

/// The edge of a record: the record with the token of its position.
pub open spec fn edge_of<T>(row: RowModel<T>) -> EdgeModel<T> {
    EdgeModel { cursor: cursor_of(row.key), node: row.node }
}

/// The connection that shows a page: one edge per record, in order; the
/// tokens of the first and the last record as start and end cursor, both
/// absent where the page is empty; the same flags and total.
pub open spec fn connection_of<T>(page: PageModel<T>) -> ConnectionModel<T> {
    ConnectionModel {
        edges: Seq::new(page.rows.len(), |i: int| edge_of(page.rows[i])),
        has_next_page: page.has_next_page,
        has_previous_page: page.has_previous_page,
        start_cursor: if page.rows.len() == 0 {
            None
        } else {
            Some(cursor_of(page.rows.first().key))
        },
        end_cursor: if page.rows.len() == 0 {
            None
        } else {
            Some(cursor_of(page.rows.last().key))
        },
        total_count: page.total_count,
    }
}

/// `page` is the connection for the records `rows` that the store
/// returned for `plan`, with the given total.
pub open spec fn is_page<T>(
    page: Connection<T>,
    plan: Plan,
    rows: Seq<RowModel<T>>,
    total_count: Option<u64>,
) -> bool {
    page@ == connection_of(page_model(plan, rows, total_count))
}

/// The total of a page under the policy, or the failure of the request.
pub open spec fn resolved_count(count: Result<u64, StoreError>, policy: CountPolicy) -> Result<
    Option<u64>,
    PageError,
> {
    match count {
        Ok(n) => Ok(Some(n)),
        Err(e) => match policy {
            CountPolicy::Fail => Err(PageError::Store(e)),
            CountPolicy::Degrade => Ok(None),
        },
    }
}

/// Settles what a page reports as its total once the count query has
/// come back.
pub fn resolve_count(count: Result<u64, StoreError>, policy: CountPolicy) -> (r: Result<
    Option<u64>,
    PageError,
>)
    ensures
        r == resolved_count(count, policy),
{
    match count {
        Ok(n) => Ok(Some(n)),
        Err(e) => match policy {
            CountPolicy::Fail => Err(PageError::Store(e)),
            CountPolicy::Degrade => Ok(None),
        },
    }
}

/// Shapes the records that the store returned for `plan` into a
/// connection: drops the record fetched to see whether more follow,
/// turns a backward fetch round, and gives every record its cursor.
pub fn build_connection<T>(plan: &QueryPlan, rows: Vec<Row<T>>, total_count: Option<u64>) -> (page:
    Connection<T>)
    ensures
        is_page(page, plan@, row_models(rows@), total_count),
        page.edges@.len() <= plan.limit,
{
    let ghost fetched = row_models(rows@);
    let mut rows = rows;
    let limit = plan.limit as usize;
    let more = rows.len() > limit;
    let beyond = more || match total_count {
        Some(n) => n > rows.len() as u64,
        None => true,
    };
    if more {
        rows.truncate(limit);
    }
    let ghost held = row_models(rows@);
    assert(held =~= kept(plan@, fetched));
    let n = rows.len();
    let mut turned: Vec<Edge<T>> = Vec::new();
    while rows.len() > 0
        invariant
            n == held.len(),
            rows@.len() + turned@.len() == n,
            row_models(rows@) == held.take(rows@.len() as int),
            forall|j: int| 0 <= j < turned@.len() ==> (#[trigger] turned@[j])@ == edge_of(held[n - 1 - j]),
        decreases rows@.len(),
    {
        let ghost m = rows@.len() as int;
        match rows.pop() {
            Some(row) => {
                assert(row@ == held.take(m)[m - 1]);
                assert(row_models(rows@) =~= held.take(m - 1));
                let Row { key, node } = row;
                let cursor = encode(&key);
                turned.push(Edge { cursor, node });
            },
            None => {},
        }
    }
    let backward = plan.reversed();
    let mut edges: Vec<Edge<T>> = Vec::new();
    if backward {
        edges = turned;
    } else {
        while turned.len() > 0
            invariant
                n == held.len(),
                turned@.len() + edges@.len() == n,
                forall|j: int|
                    0 <= j < turned@.len() ==> (#[trigger] turned@[j])@ == edge_of(held[n - 1 - j]),
                forall|j: int| 0 <= j < edges@.len() ==> (#[trigger] edges@[j])@ == edge_of(held[j]),
            decreases turned@.len(),
        {
            match turned.pop() {
                Some(edge) => {
                    edges.push(edge);
                },
                None => {},
            }
        }
    }
    let ghost w = window(plan@, fetched);
    assert(w.len() == n);
    assert forall|i: int| 0 <= i < n implies (#[trigger] edges@[i])@ == edge_of(w[i]) by {
        if backward {
            assert(w[i] == held[n - 1 - i]);
        }
    }
    let start_cursor = if n == 0 {
        None
    } else {
        Some(edges[0].cursor.clone())
    };
    let end_cursor = if n == 0 {
        None
    } else {
        Some(edges[n - 1].cursor.clone())
    };
    let has_next_page = match plan.bound {
        crate::plan::Bound::Before(_) => beyond,
        _ => more,
    };
    let has_previous_page = match plan.bound {
        crate::plan::Bound::After(_) => beyond,
        crate::plan::Bound::Before(_) => more,
        crate::plan::Bound::All => plan.skip > 0 && match total_count {
            Some(n) => n != 0,
            None => true,
        },
    };
    let page = Connection {
        page_info: PageInfo { has_next_page, has_previous_page, start_cursor, end_cursor },
        edges,
        total_count,
    };
    proof {
        let want = connection_of(page_model(plan@, fetched, total_count));
        assert(page@.edges =~= want.edges);
    }
    page
}

/// The connection for a request whose range query and count query have
/// both come back, or the failure of the request.
pub open spec fn is_assembled<T>(
    r: Result<Connection<T>, PageError>,
    plan: Plan,
    fetched: Result<Vec<Row<T>>, StoreError>,
    count: Result<u64, StoreError>,
    policy: CountPolicy,
) -> bool {
    match fetched {
        Err(e) => r == Err::<Connection<T>, PageError>(PageError::Store(e)),
        Ok(rows) => match resolved_count(count, policy) {
            Err(e) => r == Err::<Connection<T>, PageError>(e),
            Ok(total) => r matches Ok(page) && is_page(page, plan, row_models(rows@), total),
        },
    }
}

/// Turns the outcome of the two store calls for `plan` into the answer
/// to the request. A failed range query fails the request; a failed count
/// query fails it or leaves the total out, as `policy` says. There is no
/// partial connection.
pub fn assemble<T>(
    plan: &QueryPlan,
    fetched: Result<Vec<Row<T>>, StoreError>,
    count: Result<u64, StoreError>,
    policy: CountPolicy,
) -> (r: Result<Connection<T>, PageError>)
    ensures
        is_assembled(r, plan@, fetched, count, policy),
        r matches Ok(page) ==> page.edges@.len() <= plan.limit,
{
    match fetched {
        Err(e) => Err(PageError::Store(e)),
        Ok(rows) => match resolve_count(count, policy) {
            Err(e) => Err(e),
            Ok(total) => Ok(build_connection(plan, rows, total)),
        },
    }
}


/// A record that can be copied, so that a stored page can be handed out
/// again and again.
pub trait Record: Sized {
    /// A copy of the record.
    fn duplicate(&self) -> (r: Self)
        ensures
            r == *self,
    ;
}

fn duplicate_token(cursor: &Option<String>) -> (r: Option<String>)
    ensures
        r == *cursor,
{
    match cursor {
        Some(token) => Some(token.clone()),
        None => None,
    }
}

impl<T: Record> Connection<T> {
    /// A copy of the connection: the same edges, flags, cursors and total.
    pub fn duplicate(&self) -> (r: Connection<T>)
        ensures
            r@ == self@,
    {
        let mut edges: Vec<Edge<T>> = Vec::new();
        let mut i: usize = 0;
        while i < self.edges.len()
            invariant
                i <= self.edges@.len(),
                edges@.len() == i,
                forall|j: int| 0 <= j < i ==> (#[trigger] edges@[j])@ == self.edges@[j]@,
            decreases self.edges@.len() - i,
        {
            let edge = &self.edges[i];
            edges.push(Edge { cursor: edge.cursor.clone(), node: edge.node.duplicate() });
            i += 1;
        }
        let r = Connection {
            page_info: PageInfo {
                has_next_page: self.page_info.has_next_page,
                has_previous_page: self.page_info.has_previous_page,
                start_cursor: duplicate_token(&self.page_info.start_cursor),
                end_cursor: duplicate_token(&self.page_info.end_cursor),
            },
            edges,
            total_count: self.total_count,
        };
        assert(r@.edges =~= self@.edges);
        r
    }
}

} // verus!
