use mypets::cursor::encode;
use mypets::error::PageError;
use mypets::key::{KeyPart, SortField, SortKey, SortKeyValue};
use mypets::plan::{
    plan, store_conditions, Alternative, Bound, Clause, Comparison, Condition, PageRequest, QueryPlan,
    DEFAULT_LIMIT,
};

fn order_of_three() -> SortKey {
    SortKey::new(vec![
        SortField::ascending("pet_type"),
        SortField::ascending("age"),
        SortField::ascending("_id"),
    ])
}

fn position() -> SortKeyValue {
    SortKeyValue::new(vec![KeyPart::text("Dog"), KeyPart::Int(10), KeyPart::text("01")])
}

fn request(limit: Option<i32>, after: Option<String>, before: Option<String>, skip: Option<i32>) -> PageRequest {
    PageRequest { limit, after, before, skip }
}

#[test]
fn limit_of_zero_is_an_invalid_argument() {
    let r = plan(&order_of_three(), &request(Some(0), None, None, None));
    assert_eq!(r, Err(PageError::InvalidArgument));
}

#[test]
fn negative_limit_is_an_invalid_argument() {
    let r = plan(&order_of_three(), &request(Some(-1), None, None, None));
    assert_eq!(r, Err(PageError::InvalidArgument));
    let r = plan(&order_of_three(), &request(Some(i32::MIN), None, None, None));
    assert_eq!(r, Err(PageError::InvalidArgument));
}

#[test]
fn bad_limit_is_reported_before_a_bad_cursor() {
    let r = plan(&order_of_three(), &request(Some(0), Some("zz".to_string()), None, None));
    assert_eq!(r, Err(PageError::InvalidArgument));
}

#[test]
fn default_limit_is_twenty_five() {
    assert_eq!(DEFAULT_LIMIT, 25);
    let r = plan(&order_of_three(), &PageRequest::first_page()).unwrap();
    assert_eq!(r, QueryPlan { limit: 25, skip: 0, bound: Bound::All });
    assert_eq!(r.fetch_limit(), 26);
    assert!(!r.reversed());
}

#[test]
fn fetch_limit_is_one_more_than_the_limit() {
    let r = plan(&order_of_three(), &request(Some(3), None, None, None)).unwrap();
    assert_eq!(r.limit, 3);
    assert_eq!(r.fetch_limit(), 4);
    let r = plan(&order_of_three(), &request(Some(i32::MAX), None, None, None)).unwrap();
    assert_eq!(r.fetch_limit(), 2147483648);
}

#[test]
fn after_cursor_plans_a_forward_range() {
    let token = encode(&position());
    let r = plan(&order_of_three(), &request(Some(3), Some(token), None, None)).unwrap();
    assert_eq!(r, QueryPlan { limit: 3, skip: 0, bound: Bound::After(position()) });
    assert!(!r.reversed());
    assert_eq!(r.fetch_limit(), 4);
}

#[test]
fn before_cursor_plans_a_reversed_range() {
    let token = encode(&position());
    let r = plan(&order_of_three(), &request(Some(3), None, Some(token), None)).unwrap();
    assert_eq!(r, QueryPlan { limit: 3, skip: 0, bound: Bound::Before(position()) });
    assert!(r.reversed());
    assert_eq!(r.fetch_limit(), 4);
}

#[test]
fn skip_plans_an_offset_without_a_range() {
    let r = plan(&order_of_three(), &request(Some(5), None, None, Some(7))).unwrap();
    assert_eq!(r, QueryPlan { limit: 5, skip: 7, bound: Bound::All });
    assert!(!r.reversed());
}

#[test]
fn after_wins_over_before_and_skip() {
    let after = encode(&position());
    let before = encode(&SortKeyValue::new(vec![KeyPart::text("Fish"), KeyPart::Int(2), KeyPart::text("05")]));
    let r = plan(&order_of_three(), &request(Some(3), Some(after), Some(before), Some(4))).unwrap();
    assert_eq!(r, QueryPlan { limit: 3, skip: 0, bound: Bound::After(position()) });
}

#[test]
fn before_wins_over_skip() {
    let before = encode(&position());
    let r = plan(&order_of_three(), &request(Some(3), None, Some(before), Some(4))).unwrap();
    assert_eq!(r, QueryPlan { limit: 3, skip: 0, bound: Bound::Before(position()) });
}

#[test]
fn parameters_that_do_not_count_are_not_examined() {
    let after = encode(&position());
    let r = plan(&order_of_three(), &request(Some(3), Some(after), Some("zz".to_string()), Some(-4))).unwrap();
    assert_eq!(r.bound, Bound::After(position()));
    let before = encode(&position());
    let r = plan(&order_of_three(), &request(Some(3), None, Some(before), Some(-4))).unwrap();
    assert_eq!(r.bound, Bound::Before(position()));
}

#[test]
fn malformed_cursor_is_an_invalid_cursor() {
    let r = plan(&order_of_three(), &request(Some(3), Some("zz".to_string()), None, None));
    assert_eq!(r, Err(PageError::InvalidCursor));
    let r = plan(&order_of_three(), &request(Some(3), None, Some("".to_string()), None));
    assert_eq!(r, Err(PageError::InvalidCursor));
}

#[test]
fn cursor_of_another_version_is_an_invalid_cursor() {
    let token = encode(&position());
    let other = format!("02{}", &token[2..]);
    let r = plan(&order_of_three(), &request(Some(3), Some(other.clone()), None, None));
    assert_eq!(r, Err(PageError::InvalidCursor));
    let r = plan(&order_of_three(), &request(Some(3), None, Some(other), None));
    assert_eq!(r, Err(PageError::InvalidCursor));
}

#[test]
fn cursor_of_another_sort_order_is_an_invalid_cursor() {
    let short = encode(&SortKeyValue::new(vec![KeyPart::Int(10), KeyPart::text("01")]));
    let r = plan(&order_of_three(), &request(Some(3), Some(short), None, None));
    assert_eq!(r, Err(PageError::InvalidCursor));
}

#[test]
fn negative_skip_is_an_invalid_argument() {
    let r = plan(&order_of_three(), &request(Some(3), None, None, Some(-1)));
    assert_eq!(r, Err(PageError::InvalidArgument));
}

#[test]
fn cursor_of_a_record_that_is_gone_still_plans() {
    let gone = SortKeyValue::new(vec![KeyPart::text("Unicorn"), KeyPart::Null, KeyPart::text("ff")]);
    let r = plan(&order_of_three(), &request(None, Some(encode(&gone)), None, None)).unwrap();
    assert_eq!(r, QueryPlan { limit: 25, skip: 0, bound: Bound::After(gone) });
}

#[test]
fn plan_without_a_cursor_has_no_clauses() {
    let r = plan(&order_of_three(), &request(Some(3), None, None, Some(2))).unwrap();
    assert!(r.clauses(&order_of_three()).is_empty());
    assert_eq!(r.directions(&order_of_three()), vec![false, false, false]);
}

#[test]
fn plan_after_a_cursor_has_one_clause_per_field() {
    let order = SortKey::new(vec![
        SortField::ascending("pet_type"),
        SortField::descending("age"),
        SortField::ascending("_id"),
    ]);
    let r = plan(&order, &request(Some(3), Some(encode(&position())), None, None)).unwrap();
    assert_eq!(
        r.clauses(&order),
        vec![
            Clause { prefix: 0, comparison: Comparison::Greater },
            Clause { prefix: 1, comparison: Comparison::Less },
            Clause { prefix: 2, comparison: Comparison::Greater },
        ]
    );
    assert_eq!(r.directions(&order), vec![false, true, false]);
}

#[test]
fn plan_before_a_cursor_turns_clauses_and_directions_round() {
    let order = SortKey::new(vec![
        SortField::ascending("pet_type"),
        SortField::descending("age"),
        SortField::ascending("_id"),
    ]);
    let r = plan(&order, &request(Some(3), None, Some(encode(&position())), None)).unwrap();
    assert_eq!(
        r.clauses(&order),
        vec![
            Clause { prefix: 0, comparison: Comparison::Less },
            Clause { prefix: 1, comparison: Comparison::Greater },
            Clause { prefix: 2, comparison: Comparison::Less },
        ]
    );
    assert_eq!(r.directions(&order), vec![true, false, true]);
}

#[test]
fn conditions_for_a_part_name_the_other_kinds() {
    assert_eq!(store_conditions(&KeyPart::Null, Comparison::Less), vec![]);
    assert_eq!(store_conditions(&KeyPart::Null, Comparison::Greater), vec![Condition::Present]);
    assert_eq!(
        store_conditions(&KeyPart::Int(7), Comparison::Less),
        vec![Condition::Below(KeyPart::Int(7)), Condition::Absent]
    );
    assert_eq!(
        store_conditions(&KeyPart::Int(7), Comparison::Greater),
        vec![Condition::Above(KeyPart::Int(7)), Condition::Text]
    );
    assert_eq!(
        store_conditions(&KeyPart::text("Dog"), Comparison::Less),
        vec![Condition::Below(KeyPart::text("Dog")), Condition::Number, Condition::Absent]
    );
    assert_eq!(
        store_conditions(&KeyPart::text("Dog"), Comparison::Greater),
        vec![Condition::Above(KeyPart::text("Dog"))]
    );
}

fn passes(condition: &Condition, value: &KeyPart) -> bool {
    let rank = |p: &KeyPart| match p {
        KeyPart::Null => 0,
        KeyPart::Int(_) => 1,
        KeyPart::Text(_) => 2,
    };
    match condition {
        Condition::Absent => rank(value) == 0,
        Condition::Present => rank(value) != 0,
        Condition::Number => rank(value) == 1,
        Condition::Text => rank(value) == 2,
        Condition::Below(part) => rank(value) == rank(part) && value.less(part),
        Condition::Above(part) => rank(value) == rank(part) && part.less(value),
    }
}

#[test]
fn conditions_agree_with_the_order_on_samples() {
    let samples = || {
        vec![
            KeyPart::Null,
            KeyPart::Int(i64::MIN),
            KeyPart::Int(-1),
            KeyPart::Int(7),
            KeyPart::text(""),
            KeyPart::text("Cat"),
            KeyPart::text("Dog"),
        ]
    };
    for part in samples() {
        for value in samples() {
            let below = store_conditions(&part, Comparison::Less);
            assert_eq!(below.iter().any(|c| passes(c, &value)), value.less(&part));
            let above = store_conditions(&part, Comparison::Greater);
            assert_eq!(above.iter().any(|c| passes(c, &value)), part.less(&value));
        }
    }
}

#[test]
fn alternatives_of_a_plan_after_a_cursor() {
    let order = SortKey::new(vec![
        SortField::ascending("pet_type"),
        SortField::descending("age"),
        SortField::ascending("_id"),
    ]);
    let r = plan(&order, &request(Some(3), Some(encode(&position())), None, None)).unwrap();
    assert_eq!(
        r.alternatives(&order),
        vec![
            Alternative { equal: vec![], conditions: vec![Condition::Above(KeyPart::text("Dog"))] },
            Alternative {
                equal: vec![KeyPart::text("Dog")],
                conditions: vec![Condition::Below(KeyPart::Int(10)), Condition::Absent],
            },
            Alternative {
                equal: vec![KeyPart::text("Dog"), KeyPart::Int(10)],
                conditions: vec![Condition::Above(KeyPart::text("01"))],
            },
        ]
    );
    let none = plan(&order, &request(Some(3), None, None, Some(2))).unwrap();
    assert!(none.alternatives(&order).is_empty());
}

#[test]
fn alternatives_of_a_plan_before_a_cursor() {
    let r = plan(&order_of_three(), &request(Some(3), None, Some(encode(&position())), None)).unwrap();
    let alternatives = r.alternatives(&order_of_three());
    assert_eq!(alternatives.len(), 3);
    assert_eq!(
        alternatives[1],
        Alternative {
            equal: vec![KeyPart::text("Dog")],
            conditions: vec![Condition::Below(KeyPart::Int(10)), Condition::Absent],
        }
    );
    assert_eq!(
        alternatives[2].conditions,
        vec![Condition::Below(KeyPart::text("01")), Condition::Number, Condition::Absent]
    );
}
