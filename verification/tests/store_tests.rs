use mypets::cursor::encode;
use mypets::error::PageError;
use mypets::key::{KeyPart, SortField, SortKey, SortKeyValue};
use mypets::page::{Connection, Row};
use mypets::plan::{Bound, PageRequest, QueryPlan};
use mypets::store::{fetch_rows, paginate, sort_rows};

fn by_number() -> SortKey {
    SortKey::new(vec![SortField::ascending("n")])
}

fn by_number_descending() -> SortKey {
    SortKey::new(vec![SortField::descending("n")])
}

fn number_key(n: i64) -> SortKeyValue {
    SortKeyValue::new(vec![KeyPart::Int(n)])
}

fn number_row(n: i64) -> Row<String> {
    Row { key: number_key(n), node: format!("record {}", n) }
}

fn number_rows(ns: &[i64]) -> Vec<Row<String>> {
    ns.iter().map(|n| number_row(*n)).collect()
}

fn nodes_of(rows: &Vec<Row<String>>) -> Vec<String> {
    rows.iter().map(|r| r.node.clone()).collect()
}

fn names(ns: &[i64]) -> Vec<String> {
    ns.iter().map(|n| format!("record {}", n)).collect()
}

fn page_nodes(page: &Connection<String>) -> Vec<String> {
    page.edges.iter().map(|e| e.node.clone()).collect()
}

fn ask(limit: Option<i32>, after: Option<String>, before: Option<String>, skip: Option<i32>) -> PageRequest {
    PageRequest { limit, after, before, skip }
}

fn shuffled() -> Vec<i64> {
    vec![50, 10, 80, 30, 70, 20, 60, 40]
}

#[test]
fn sorting_puts_records_in_key_order() {
    let sorted = sort_rows(&by_number(), number_rows(&shuffled()));
    assert_eq!(nodes_of(&sorted), names(&[10, 20, 30, 40, 50, 60, 70, 80]));
    let sorted = sort_rows(&by_number_descending(), number_rows(&shuffled()));
    assert_eq!(nodes_of(&sorted), names(&[80, 70, 60, 50, 40, 30, 20, 10]));
    let sorted = sort_rows(&by_number(), number_rows(&[]));
    assert!(sorted.is_empty());
}

#[test]
fn sorting_keeps_every_record() {
    let sorted = sort_rows(&by_number(), number_rows(&[3, 1, 3, 2, 1]));
    assert_eq!(nodes_of(&sorted), names(&[1, 1, 2, 3, 3]));
}

#[test]
fn range_after_a_cursor_starts_just_past_it() {
    let sorted = sort_rows(&by_number(), number_rows(&shuffled()));
    let plan = QueryPlan { limit: 3, skip: 0, bound: Bound::After(number_key(30)) };
    assert_eq!(nodes_of(&fetch_rows(&by_number(), sorted, &plan)), names(&[40, 50, 60, 70]));
}

#[test]
fn range_after_a_cursor_between_records() {
    let sorted = sort_rows(&by_number(), number_rows(&shuffled()));
    let plan = QueryPlan { limit: 2, skip: 0, bound: Bound::After(number_key(35)) };
    assert_eq!(nodes_of(&fetch_rows(&by_number(), sorted, &plan)), names(&[40, 50, 60]));
}

#[test]
fn range_before_a_cursor_walks_backwards_from_it() {
    let sorted = sort_rows(&by_number(), number_rows(&shuffled()));
    let plan = QueryPlan { limit: 3, skip: 0, bound: Bound::Before(number_key(60)) };
    assert_eq!(nodes_of(&fetch_rows(&by_number(), sorted, &plan)), names(&[50, 40, 30, 20]));
}

#[test]
fn range_before_the_first_record_is_empty() {
    let sorted = sort_rows(&by_number(), number_rows(&shuffled()));
    let plan = QueryPlan { limit: 3, skip: 0, bound: Bound::Before(number_key(10)) };
    assert!(fetch_rows(&by_number(), sorted, &plan).is_empty());
}

#[test]
fn range_after_the_last_record_is_empty() {
    let sorted = sort_rows(&by_number(), number_rows(&shuffled()));
    let plan = QueryPlan { limit: 3, skip: 0, bound: Bound::After(number_key(80)) };
    assert!(fetch_rows(&by_number(), sorted, &plan).is_empty());
}

#[test]
fn skip_leaves_records_out_at_the_front() {
    let sorted = sort_rows(&by_number(), number_rows(&shuffled()));
    let plan = QueryPlan { limit: 2, skip: 5, bound: Bound::All };
    assert_eq!(nodes_of(&fetch_rows(&by_number(), sorted, &plan)), names(&[60, 70, 80]));
    let sorted = sort_rows(&by_number(), number_rows(&shuffled()));
    let plan = QueryPlan { limit: 2, skip: 50, bound: Bound::All };
    assert!(fetch_rows(&by_number(), sorted, &plan).is_empty());
}

#[test]
fn fetch_returns_at_most_one_more_than_the_limit() {
    for limit in 1..10u32 {
        let sorted = sort_rows(&by_number(), number_rows(&shuffled()));
        let plan = QueryPlan { limit, skip: 0, bound: Bound::All };
        let got = fetch_rows(&by_number(), sorted, &plan);
        assert_eq!(got.len(), std::cmp::min(limit as usize + 1, 8));
    }
    let sorted = sort_rows(&by_number(), number_rows(&shuffled()));
    let plan = QueryPlan { limit: u32::MAX, skip: 0, bound: Bound::All };
    assert_eq!(fetch_rows(&by_number(), sorted, &plan).len(), 8);
}

#[test]
fn first_page_then_next_pages_walk_the_whole_set() {
    let mut seen: Vec<String> = vec![];
    let mut after: Option<String> = None;
    let mut pages = 0;
    loop {
        let page = paginate(&by_number(), number_rows(&shuffled()), &ask(Some(3), after.clone(), None, None)).unwrap();
        assert!(page.edges.len() <= 3);
        assert_eq!(page.total_count, Some(8));
        assert_eq!(page.page_info.has_previous_page, pages > 0);
        seen.extend(page_nodes(&page));
        pages += 1;
        if !page.page_info.has_next_page {
            break;
        }
        after = page.page_info.end_cursor.clone();
    }
    assert_eq!(pages, 3);
    assert_eq!(seen, names(&[10, 20, 30, 40, 50, 60, 70, 80]));
}

#[test]
fn last_page_then_previous_pages_walk_the_whole_set_backwards() {
    let past_the_end = encode(&number_key(1000));
    let mut seen: Vec<Vec<String>> = vec![];
    let mut before: Option<String> = Some(past_the_end);
    loop {
        let page = paginate(&by_number(), number_rows(&shuffled()), &ask(Some(3), None, before.clone(), None)).unwrap();
        assert!(page.page_info.has_next_page);
        seen.push(page_nodes(&page));
        if !page.page_info.has_previous_page {
            break;
        }
        before = page.page_info.start_cursor.clone();
    }
    assert_eq!(seen, vec![names(&[60, 70, 80]), names(&[30, 40, 50]), names(&[10, 20])]);
}

#[test]
fn paging_back_from_a_page_gives_the_page_before_it() {
    for limit in 1..5 {
        let mut previous: Option<Connection<String>> = None;
        let mut after: Option<String> = None;
        loop {
            let page = paginate(&by_number(), number_rows(&shuffled()), &ask(Some(limit), after.clone(), None, None)).unwrap();
            if let Some(prev) = &previous {
                let first = page.edges[0].cursor.clone();
                let back = paginate(&by_number(), number_rows(&shuffled()), &ask(Some(limit), None, Some(first), None)).unwrap();
                assert_eq!(back.edges, prev.edges);
                assert_eq!(back.page_info.start_cursor, prev.page_info.start_cursor);
                assert_eq!(back.page_info.end_cursor, prev.page_info.end_cursor);
            }
            if !page.page_info.has_next_page {
                break;
            }
            after = page.page_info.end_cursor.clone();
            previous = Some(page);
        }
    }
}

#[test]
fn total_count_is_the_same_on_every_page() {
    let requests = vec![
        ask(Some(1), None, None, None),
        ask(Some(3), None, None, Some(2)),
        ask(Some(100), None, None, None),
        ask(None, Some(encode(&number_key(30))), None, None),
        ask(Some(2), None, Some(encode(&number_key(30))), None),
        ask(Some(2), None, None, Some(400)),
    ];
    for request in &requests {
        let page = paginate(&by_number(), number_rows(&shuffled()), request).unwrap();
        assert_eq!(page.total_count, Some(8));
    }
    let empty = paginate(&by_number(), number_rows(&[]), &ask(Some(2), None, None, None)).unwrap();
    assert_eq!(empty.total_count, Some(0));
    assert!(empty.edges.is_empty());
    assert_eq!(empty.page_info.start_cursor, None);
    assert_eq!(empty.page_info.end_cursor, None);
}

#[test]
fn pages_never_exceed_the_limit() {
    for limit in 1..12 {
        for skip in 0..10 {
            let page = paginate(&by_number(), number_rows(&shuffled()), &ask(Some(limit), None, None, Some(skip))).unwrap();
            assert!(page.edges.len() <= limit as usize);
        }
    }
}

#[test]
fn cursor_of_a_record_that_is_gone_is_a_boundary() {
    let gone = encode(&number_key(45));
    let page = paginate(&by_number(), number_rows(&shuffled()), &ask(Some(2), Some(gone.clone()), None, None)).unwrap();
    assert_eq!(page_nodes(&page), names(&[50, 60]));
    let page = paginate(&by_number(), number_rows(&shuffled()), &ask(Some(2), None, Some(gone), None)).unwrap();
    assert_eq!(page_nodes(&page), names(&[30, 40]));
}

#[test]
fn paginate_reports_what_the_planner_refuses() {
    let r = paginate(&by_number(), number_rows(&shuffled()), &ask(Some(0), None, None, None));
    assert_eq!(r, Err(PageError::InvalidArgument));
    let r = paginate(&by_number(), number_rows(&shuffled()), &ask(Some(2), Some("xyz".to_string()), None, None));
    assert_eq!(r, Err(PageError::InvalidCursor));
}

#[test]
fn descending_order_pages_from_the_largest() {
    let page = paginate(&by_number_descending(), number_rows(&shuffled()), &ask(Some(3), None, None, None)).unwrap();
    assert_eq!(page_nodes(&page), names(&[80, 70, 60]));
    let next = paginate(&by_number_descending(), number_rows(&shuffled()), &ask(Some(3), page.page_info.end_cursor.clone(), None, None)).unwrap();
    assert_eq!(page_nodes(&next), names(&[50, 40, 30]));
    let back = paginate(&by_number_descending(), number_rows(&shuffled()), &ask(Some(3), None, next.page_info.start_cursor.clone(), None)).unwrap();
    assert_eq!(back.edges, page.edges);
}

#[test]
fn flags_are_exact_where_the_fetch_saw_the_whole_side() {
    let past_the_end = encode(&number_key(1000));
    let page = paginate(&by_number(), number_rows(&shuffled()), &ask(Some(10), None, Some(past_the_end), None)).unwrap();
    assert_eq!(page.edges.len(), 8);
    assert!(!page.page_info.has_next_page);
    assert!(!page.page_info.has_previous_page);
    let before_the_start = encode(&number_key(-5));
    let page = paginate(&by_number(), number_rows(&shuffled()), &ask(Some(10), Some(before_the_start), None, None)).unwrap();
    assert_eq!(page.edges.len(), 8);
    assert!(!page.page_info.has_next_page);
    assert!(!page.page_info.has_previous_page);
    let in_the_middle = encode(&number_key(45));
    let page = paginate(&by_number(), number_rows(&shuffled()), &ask(Some(10), Some(in_the_middle), None, None)).unwrap();
    assert_eq!(page_nodes(&page), names(&[50, 60, 70, 80]));
    assert!(page.page_info.has_previous_page);
    assert!(!page.page_info.has_next_page);
}

#[test]
fn empty_set_pages_have_no_neighbours() {
    let token = encode(&number_key(45));
    let requests = vec![
        ask(Some(3), None, None, None),
        ask(Some(3), None, None, Some(4)),
        ask(Some(3), Some(token.clone()), None, None),
        ask(Some(3), None, Some(token), None),
    ];
    for request in &requests {
        let page = paginate(&by_number(), number_rows(&[]), request).unwrap();
        assert!(page.edges.is_empty());
        assert!(!page.page_info.has_next_page);
        assert!(!page.page_info.has_previous_page);
        assert_eq!(page.total_count, Some(0));
    }
}
