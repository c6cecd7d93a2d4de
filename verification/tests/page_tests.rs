use mypets::cursor::encode;
use mypets::error::{PageError, StoreError};
use mypets::key::{KeyPart, SortKeyValue};
use mypets::page::{assemble, build_connection, resolve_count, Connection, CountPolicy, Edge, PageInfo, Row};
use mypets::plan::{Bound, QueryPlan};

fn key_of(n: i64) -> SortKeyValue {
    SortKeyValue::new(vec![KeyPart::Int(n)])
}

fn row(n: i64) -> Row<i64> {
    Row { key: key_of(n), node: n * 100 }
}

fn edge(n: i64) -> Edge<i64> {
    Edge { cursor: encode(&key_of(n)), node: n * 100 }
}

fn forward(limit: u32, skip: u32) -> QueryPlan {
    QueryPlan { limit, skip, bound: Bound::All }
}

fn store_down() -> StoreError {
    StoreError { message: "connection reset".to_string() }
}

#[test]
fn forward_page_drops_the_extra_record() {
    let page = build_connection(&forward(3, 0), vec![row(1), row(2), row(3), row(4)], Some(8));
    assert_eq!(
        page,
        Connection {
            page_info: PageInfo {
                has_next_page: true,
                has_previous_page: false,
                start_cursor: Some(encode(&key_of(1))),
                end_cursor: Some(encode(&key_of(3))),
            },
            edges: vec![edge(1), edge(2), edge(3)],
            total_count: Some(8),
        }
    );
}

#[test]
fn forward_page_without_more_has_no_next_page() {
    let page = build_connection(&forward(3, 0), vec![row(1), row(2), row(3)], Some(3));
    assert!(!page.page_info.has_next_page);
    assert!(!page.page_info.has_previous_page);
    assert_eq!(page.edges, vec![edge(1), edge(2), edge(3)]);
    let page = build_connection(&forward(3, 0), vec![row(1)], Some(1));
    assert!(!page.page_info.has_next_page);
    assert_eq!(page.edges, vec![edge(1)]);
    assert_eq!(page.page_info.start_cursor, page.page_info.end_cursor);
}

#[test]
fn skipped_records_make_a_previous_page() {
    let page = build_connection(&forward(2, 4), vec![row(5), row(6), row(7)], Some(8));
    assert!(page.page_info.has_previous_page);
    assert!(page.page_info.has_next_page);
    assert_eq!(page.edges, vec![edge(5), edge(6)]);
}

#[test]
fn page_after_a_cursor_has_a_previous_page() {
    let plan = QueryPlan { limit: 3, skip: 0, bound: Bound::After(key_of(3)) };
    let page = build_connection(&plan, vec![row(4), row(5)], Some(5));
    assert!(page.page_info.has_previous_page);
    assert!(!page.page_info.has_next_page);
    assert_eq!(page.edges, vec![edge(4), edge(5)]);
    assert_eq!(page.page_info.start_cursor, Some(encode(&key_of(4))));
    assert_eq!(page.page_info.end_cursor, Some(encode(&key_of(5))));
}

#[test]
fn backward_fetch_is_turned_round() {
    let plan = QueryPlan { limit: 3, skip: 0, bound: Bound::Before(key_of(7)) };
    let page = build_connection(&plan, vec![row(6), row(5), row(4), row(3)], Some(8));
    assert_eq!(page.edges, vec![edge(4), edge(5), edge(6)]);
    assert!(page.page_info.has_next_page);
    assert!(page.page_info.has_previous_page);
    assert_eq!(page.page_info.start_cursor, Some(encode(&key_of(4))));
    assert_eq!(page.page_info.end_cursor, Some(encode(&key_of(6))));
}

#[test]
fn backward_page_at_the_start_has_no_previous_page() {
    let plan = QueryPlan { limit: 3, skip: 0, bound: Bound::Before(key_of(3)) };
    let page = build_connection(&plan, vec![row(2), row(1)], Some(8));
    assert_eq!(page.edges, vec![edge(1), edge(2)]);
    assert!(page.page_info.has_next_page);
    assert!(!page.page_info.has_previous_page);
}

#[test]
fn empty_page_has_no_cursors() {
    let page = build_connection(&forward(3, 0), Vec::<Row<i64>>::new(), Some(0));
    assert_eq!(
        page,
        Connection {
            page_info: PageInfo {
                has_next_page: false,
                has_previous_page: false,
                start_cursor: None,
                end_cursor: None,
            },
            edges: vec![],
            total_count: Some(0),
        }
    );
}

#[test]
fn page_is_never_longer_than_the_limit() {
    for limit in 1..6u32 {
        for fetched in 0..9i64 {
            let rows: Vec<Row<i64>> = (0..fetched).map(row).collect();
            let page = build_connection(&forward(limit, 0), rows, None);
            assert!(page.edges.len() <= limit as usize);
            assert_eq!(page.edges.len(), std::cmp::min(limit as i64, fetched) as usize);
            assert_eq!(page.page_info.has_next_page, fetched > limit as i64);
        }
    }
}

#[test]
fn total_is_attached_as_given() {
    let page = build_connection(&forward(1, 0), vec![row(1), row(2)], Some(12345));
    assert_eq!(page.total_count, Some(12345));
    let page = build_connection(&forward(1, 0), vec![row(1), row(2)], None);
    assert_eq!(page.total_count, None);
}

#[test]
fn count_that_came_back_is_the_total() {
    assert_eq!(resolve_count(Ok(8), CountPolicy::Fail), Ok(Some(8)));
    assert_eq!(resolve_count(Ok(8), CountPolicy::Degrade), Ok(Some(8)));
}

#[test]
fn failed_count_fails_the_request_by_default() {
    assert_eq!(resolve_count(Err(store_down()), CountPolicy::Fail), Err(PageError::Store(store_down())));
}

#[test]
fn failed_count_can_be_let_go() {
    assert_eq!(resolve_count(Err(store_down()), CountPolicy::Degrade), Ok(None));
}

#[test]
fn failed_range_query_gives_no_partial_connection() {
    let r: Result<Connection<i64>, PageError> = assemble(&forward(3, 0), Err(store_down()), Ok(8), CountPolicy::Fail);
    assert_eq!(r, Err(PageError::Store(store_down())));
    let r: Result<Connection<i64>, PageError> = assemble(&forward(3, 0), Err(store_down()), Ok(8), CountPolicy::Degrade);
    assert_eq!(r, Err(PageError::Store(store_down())));
}

#[test]
fn failed_count_gives_no_partial_connection_under_fail() {
    let r = assemble(&forward(3, 0), Ok(vec![row(1), row(2)]), Err(store_down()), CountPolicy::Fail);
    assert_eq!(r, Err(PageError::Store(store_down())));
}

#[test]
fn failed_count_leaves_the_total_out_under_degrade() {
    let r = assemble(&forward(3, 0), Ok(vec![row(1), row(2)]), Err(store_down()), CountPolicy::Degrade).unwrap();
    assert_eq!(r.total_count, None);
    assert_eq!(r.edges, vec![edge(1), edge(2)]);
}

#[test]
fn both_calls_back_give_the_page() {
    let r = assemble(&forward(2, 0), Ok(vec![row(1), row(2), row(3)]), Ok(3), CountPolicy::Fail).unwrap();
    assert_eq!(r, build_connection(&forward(2, 0), vec![row(1), row(2), row(3)], Some(3)));
    assert_eq!(r.edges, vec![edge(1), edge(2)]);
    assert_eq!(r.total_count, Some(3));
}

#[test]
fn failed_count_fails_the_request_unless_told_otherwise() {
    assert_eq!(CountPolicy::default(), CountPolicy::Fail);
}

#[test]
fn empty_set_has_no_page_on_either_side() {
    let plans = vec![
        forward(3, 0),
        forward(3, 7),
        QueryPlan { limit: 3, skip: 0, bound: Bound::After(key_of(5)) },
        QueryPlan { limit: 3, skip: 0, bound: Bound::Before(key_of(5)) },
    ];
    for plan in &plans {
        let page = build_connection(plan, Vec::<Row<i64>>::new(), Some(0));
        assert!(!page.page_info.has_next_page);
        assert!(!page.page_info.has_previous_page);
        assert!(page.edges.is_empty());
        assert_eq!(page.page_info.start_cursor, None);
        assert_eq!(page.page_info.end_cursor, None);
    }
}

#[test]
fn page_after_a_cursor_before_every_record_has_no_previous_page() {
    let plan = QueryPlan { limit: 3, skip: 0, bound: Bound::After(key_of(0)) };
    let page = build_connection(&plan, vec![row(1), row(2)], Some(2));
    assert!(!page.page_info.has_previous_page);
    assert!(!page.page_info.has_next_page);
    let page = build_connection(&plan, vec![row(1), row(2)], Some(3));
    assert!(page.page_info.has_previous_page);
}

#[test]
fn page_before_a_cursor_past_every_record_has_no_next_page() {
    let plan = QueryPlan { limit: 3, skip: 0, bound: Bound::Before(key_of(9)) };
    let page = build_connection(&plan, vec![row(2), row(1)], Some(2));
    assert!(!page.page_info.has_next_page);
    assert!(!page.page_info.has_previous_page);
    let page = build_connection(&plan, vec![row(2), row(1)], Some(5));
    assert!(page.page_info.has_next_page);
}

#[test]
fn flags_fall_back_on_the_cursor_where_the_total_is_not_known() {
    let plan = QueryPlan { limit: 3, skip: 0, bound: Bound::After(key_of(0)) };
    let page = build_connection(&plan, vec![row(1)], None);
    assert!(page.page_info.has_previous_page);
    let plan = QueryPlan { limit: 3, skip: 0, bound: Bound::Before(key_of(9)) };
    let page = build_connection(&plan, vec![row(1)], None);
    assert!(page.page_info.has_next_page);
    let page = build_connection(&forward(3, 2), Vec::<Row<i64>>::new(), None);
    assert!(page.page_info.has_previous_page);
}
