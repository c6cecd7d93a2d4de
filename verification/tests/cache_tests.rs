use mypets::cache::{ResultCache, Resumed, Ticket};
use mypets::error::CacheComputeError;

#[test]
fn cold_cache_tells_the_first_caller_to_compute() {
    let mut cache: ResultCache<String, String> = ResultCache::new(4, 10, 5);
    assert_eq!(cache.begin("pets", 100), Ticket::Lead);
    assert_eq!(cache.len(), 0);
    assert_eq!(cache.capacity(), 4);
}

#[test]
fn identical_requests_on_a_cold_cache_lead_once() {
    let mut cache: ResultCache<String, String> = ResultCache::new(4, 10, 5);
    let mut leads = 0;
    let mut waits = 0;
    for _ in 0..50 {
        match cache.begin("pets", 100) {
            Ticket::Lead => leads += 1,
            Ticket::Wait => waits += 1,
            Ticket::Hit => panic!("nothing was stored"),
        }
    }
    assert_eq!(leads, 1);
    assert_eq!(waits, 49);
}

#[test]
fn different_keys_lead_independently() {
    let mut cache: ResultCache<String, String> = ResultCache::new(4, 10, 5);
    assert_eq!(cache.begin("pets", 100), Ticket::Lead);
    assert_eq!(cache.begin("owners", 100), Ticket::Lead);
    assert_eq!(cache.begin("pets", 101), Ticket::Wait);
    assert_eq!(cache.begin("owners", 101), Ticket::Wait);
}

#[test]
fn reported_result_is_served_while_it_lives() {
    let mut cache: ResultCache<String, String> = ResultCache::new(4, 10, 5);
    assert_eq!(cache.begin("pets", 100), Ticket::Lead);
    cache.complete("pets", "page one".to_string(), 102, None);
    for now in 102..112 {
        assert_eq!(cache.begin("pets", now), Ticket::Hit);
        assert_eq!(cache.peek("pets", now), Some(&"page one".to_string()));
    }
    assert_eq!(cache.len(), 1);
}

#[test]
fn expired_result_is_gone_and_computed_once_more() {
    let mut cache: ResultCache<String, String> = ResultCache::new(4, 10, 5);
    assert_eq!(cache.begin("pets", 100), Ticket::Lead);
    cache.complete("pets", "page one".to_string(), 102, None);
    assert_eq!(cache.peek("pets", 111), Some(&"page one".to_string()));
    assert_eq!(cache.peek("pets", 112), None);
    assert_eq!(cache.begin("pets", 112), Ticket::Lead);
    assert_eq!(cache.len(), 0);
    assert_eq!(cache.begin("pets", 112), Ticket::Wait);
    assert_eq!(cache.begin("pets", 113), Ticket::Wait);
    cache.complete("pets", "page two".to_string(), 113, None);
    assert_eq!(cache.begin("pets", 114), Ticket::Hit);
    assert_eq!(cache.peek("pets", 114), Some(&"page two".to_string()));
}

#[test]
fn given_time_to_live_overrides_the_default() {
    let mut cache: ResultCache<u32, String> = ResultCache::new(4, 10, 5);
    cache.begin("a", 0);
    cache.complete("a", 1, 0, Some(3));
    assert_eq!(cache.peek("a", 2), Some(&1));
    assert_eq!(cache.peek("a", 3), None);
    cache.begin("b", 0);
    cache.complete("b", 2, 0, Some(0));
    assert_eq!(cache.peek("b", 0), None);
}

#[test]
fn clock_that_runs_backwards_does_not_expire_anything() {
    let mut cache: ResultCache<u32, String> = ResultCache::new(4, 10, 5);
    cache.begin("a", 100);
    cache.complete("a", 1, 100, None);
    assert_eq!(cache.peek("a", 50), Some(&1));
    assert_eq!(cache.begin("a", 50), Ticket::Hit);
}

#[test]
fn time_to_live_near_the_end_of_time_does_not_overflow() {
    let mut cache: ResultCache<u32, String> = ResultCache::new(4, 10, 5);
    cache.begin("a", u64::MAX - 1);
    cache.complete("a", 1, u64::MAX - 1, Some(u64::MAX));
    assert_eq!(cache.peek("a", u64::MAX), Some(&1));
}

#[test]
fn failure_is_not_stored_and_the_next_caller_retries() {
    let mut cache: ResultCache<String, String> = ResultCache::new(4, 10, 5);
    assert_eq!(cache.begin("pets", 100), Ticket::Lead);
    assert_eq!(cache.begin("pets", 101), Ticket::Wait);
    let error = cache.fail("pets", "store is down".to_string());
    assert_eq!(error, CacheComputeError { cause: "store is down".to_string() });
    assert_eq!(cache.peek("pets", 101), None);
    assert_eq!(cache.len(), 0);
    assert_eq!(cache.begin("pets", 101), Ticket::Lead);
}

#[test]
fn failure_leaves_a_stored_result_of_another_key_alone() {
    let mut cache: ResultCache<u32, String> = ResultCache::new(4, 10, 5);
    cache.begin("a", 0);
    cache.complete("a", 1, 0, None);
    cache.begin("b", 1);
    cache.fail("b", "down".to_string());
    assert_eq!(cache.peek("a", 2), Some(&1));
}

#[test]
fn leader_that_runs_out_of_time_is_replaced() {
    let mut cache: ResultCache<String, String> = ResultCache::new(4, 10, 5);
    assert_eq!(cache.begin("pets", 100), Ticket::Lead);
    assert_eq!(cache.begin("pets", 104), Ticket::Wait);
    assert_eq!(cache.begin("pets", 105), Ticket::Lead);
    assert_eq!(cache.begin("pets", 106), Ticket::Wait);
    assert_eq!(cache.begin("pets", 109), Ticket::Wait);
    assert_eq!(cache.begin("pets", 110), Ticket::Lead);
}

#[test]
fn oldest_result_goes_first_when_the_cache_is_full() {
    let mut cache: ResultCache<u32, String> = ResultCache::new(3, 1000, 5);
    for (i, key) in ["a", "b", "c"].iter().enumerate() {
        assert_eq!(cache.begin(key, i as u64), Ticket::Lead);
        cache.complete(key, i as u32, i as u64, None);
    }
    assert_eq!(cache.len(), 3);
    assert_eq!(cache.begin("d", 3), Ticket::Lead);
    cache.complete("d", 3, 3, None);
    assert_eq!(cache.len(), 3);
    assert_eq!(cache.peek("a", 4), None);
    assert_eq!(cache.peek("b", 4), Some(&1));
    assert_eq!(cache.peek("c", 4), Some(&2));
    assert_eq!(cache.peek("d", 4), Some(&3));
    assert_eq!(cache.begin("e", 5), Ticket::Lead);
    cache.complete("e", 4, 5, None);
    assert_eq!(cache.peek("b", 6), None);
    assert_eq!(cache.peek("c", 6), Some(&2));
}

#[test]
fn eviction_is_by_age_of_insertion_not_by_expiry() {
    let mut cache: ResultCache<u32, String> = ResultCache::new(2, 1000, 5);
    cache.begin("long", 0);
    cache.complete("long", 1, 0, Some(1_000_000));
    cache.begin("short", 1);
    cache.complete("short", 2, 1, Some(1));
    cache.begin("new", 10);
    cache.complete("new", 3, 10, None);
    assert_eq!(cache.peek("long", 11), None);
    assert_eq!(cache.peek("new", 11), Some(&3));
    assert_eq!(cache.len(), 2);
}

#[test]
fn reporting_again_replaces_the_result_and_makes_it_newest() {
    let mut cache: ResultCache<u32, String> = ResultCache::new(2, 1000, 5);
    cache.begin("a", 0);
    cache.complete("a", 1, 0, None);
    cache.begin("b", 1);
    cache.complete("b", 2, 1, None);
    cache.complete("a", 10, 2, None);
    assert_eq!(cache.len(), 2);
    assert_eq!(cache.peek("a", 3), Some(&10));
    cache.begin("c", 3);
    cache.complete("c", 3, 3, None);
    assert_eq!(cache.peek("b", 4), None);
    assert_eq!(cache.peek("a", 4), Some(&10));
    assert_eq!(cache.peek("c", 4), Some(&3));
}

#[test]
fn cache_without_room_stores_nothing() {
    let mut cache: ResultCache<u32, String> = ResultCache::new(0, 1000, 5);
    assert_eq!(cache.begin("a", 0), Ticket::Lead);
    cache.complete("a", 1, 0, None);
    assert_eq!(cache.len(), 0);
    assert_eq!(cache.peek("a", 1), None);
    assert_eq!(cache.begin("a", 1), Ticket::Lead);
}

#[test]
fn waiters_find_the_result_after_the_leader_reports() {
    let mut cache: ResultCache<u32, String> = ResultCache::new(1, 10, 5);
    assert_eq!(cache.begin("a", 0), Ticket::Lead);
    assert_eq!(cache.begin("a", 1), Ticket::Wait);
    assert_eq!(cache.begin("a", 2), Ticket::Wait);
    cache.complete("a", 7, 3, None);
    assert_eq!(cache.begin("a", 3), Ticket::Hit);
    assert_eq!(cache.peek("a", 3), Some(&7));
}

#[test]
fn waiters_collect_the_result_of_the_leader() {
    let mut cache: ResultCache<u32, String> = ResultCache::new(4, 10, 5);
    assert_eq!(cache.begin("a", 0), Ticket::Lead);
    assert_eq!(cache.begin("a", 1), Ticket::Wait);
    assert_eq!(cache.begin("a", 2), Ticket::Wait);
    assert_eq!(cache.awaited_value("a"), None);
    assert_eq!(cache.resume("a", 3), Resumed::Waiting);
    cache.complete("a", 7, 3, None);
    assert_eq!(cache.awaited_value("a"), Some(&7));
    assert_eq!(cache.owed_failure("a"), None);
    assert_eq!(cache.resume("a", 4), Resumed::Ready);
    assert_eq!(cache.awaited_value("a"), Some(&7));
    assert_eq!(cache.resume("a", 4), Resumed::Ready);
    assert_eq!(cache.awaited_value("a"), None);
    assert_eq!(cache.peek("a", 4), Some(&7));
    assert_eq!(cache.resume("a", 4), Resumed::Abandoned);
}

#[test]
fn waiters_collect_the_result_though_it_has_expired() {
    let mut cache: ResultCache<u32, String> = ResultCache::new(4, 10, 5);
    cache.begin("a", 0);
    assert_eq!(cache.begin("a", 1), Ticket::Wait);
    cache.complete("a", 7, 2, Some(1));
    assert_eq!(cache.peek("a", 100), None);
    assert_eq!(cache.awaited_value("a"), Some(&7));
    assert_eq!(cache.resume("a", 100), Resumed::Ready);
    assert_eq!(cache.awaited_value("a"), None);
}

#[test]
fn waiters_collect_the_failure_of_the_leader() {
    let mut cache: ResultCache<u32, String> = ResultCache::new(4, 10, 5);
    assert_eq!(cache.begin("a", 0), Ticket::Lead);
    assert_eq!(cache.begin("a", 1), Ticket::Wait);
    assert_eq!(cache.begin("a", 1), Ticket::Wait);
    assert_eq!(cache.begin("a", 2), Ticket::Wait);
    let error = cache.fail("a", "store is down".to_string());
    assert_eq!(error, CacheComputeError { cause: "store is down".to_string() });
    for _ in 0..3 {
        assert_eq!(cache.owed_failure("a"), Some(&"store is down".to_string()));
        assert_eq!(cache.awaited_value("a"), None);
        assert_eq!(cache.resume("a", 50), Resumed::Failed);
    }
    assert_eq!(cache.owed_failure("a"), None);
    assert_eq!(cache.resume("a", 50), Resumed::Abandoned);
    assert_eq!(cache.len(), 0);
}

#[test]
fn new_request_after_a_failure_computes_while_old_waiters_collect() {
    let mut cache: ResultCache<u32, String> = ResultCache::new(4, 10, 5);
    cache.begin("a", 0);
    assert_eq!(cache.begin("a", 1), Ticket::Wait);
    cache.fail("a", "first".to_string());
    assert_eq!(cache.begin("a", 2), Ticket::Lead);
    assert_eq!(cache.owed_failure("a"), Some(&"first".to_string()));
    assert_eq!(cache.resume("a", 2), Resumed::Failed);
    cache.complete("a", 9, 3, None);
    assert_eq!(cache.peek("a", 4), Some(&9));
}

#[test]
fn failure_without_waiters_leaves_nothing_on_file() {
    let mut cache: ResultCache<u32, String> = ResultCache::new(4, 10, 5);
    cache.begin("a", 0);
    cache.fail("a", "down".to_string());
    assert_eq!(cache.owed_failure("a"), None);
    assert_eq!(cache.resume("a", 1), Resumed::Abandoned);
}

#[test]
fn waiter_is_told_when_the_leader_ran_out_of_time() {
    let mut cache: ResultCache<u32, String> = ResultCache::new(4, 10, 5);
    assert_eq!(cache.begin("a", 100), Ticket::Lead);
    assert_eq!(cache.begin("a", 101), Ticket::Wait);
    assert_eq!(cache.resume("a", 104), Resumed::Waiting);
    assert_eq!(cache.resume("a", 105), Resumed::Abandoned);
    assert_eq!(cache.begin("a", 105), Ticket::Lead);
    cache.complete("a", 1, 106, None);
    assert_eq!(cache.begin("a", 106), Ticket::Hit);
}

#[test]
fn waiters_of_a_replaced_leader_wait_for_the_new_one() {
    let mut cache: ResultCache<u32, String> = ResultCache::new(4, 10, 5);
    assert_eq!(cache.begin("a", 100), Ticket::Lead);
    assert_eq!(cache.begin("a", 101), Ticket::Wait);
    assert_eq!(cache.begin("a", 106), Ticket::Lead);
    assert_eq!(cache.resume("a", 107), Resumed::Waiting);
    cache.complete("a", 5, 108, None);
    assert_eq!(cache.awaited_value("a"), Some(&5));
    assert_eq!(cache.resume("a", 108), Resumed::Ready);
}

#[test]
fn eviction_spares_a_result_that_waiters_have_yet_to_collect() {
    let mut cache: ResultCache<u32, String> = ResultCache::new(2, 1000, 50);
    cache.begin("a", 0);
    assert_eq!(cache.begin("a", 0), Ticket::Wait);
    cache.complete("a", 1, 1, None);
    cache.begin("b", 2);
    cache.complete("b", 2, 2, None);
    cache.begin("c", 3);
    cache.complete("c", 3, 3, None);
    assert_eq!(cache.len(), 2);
    assert_eq!(cache.peek("a", 4), Some(&1));
    assert_eq!(cache.peek("b", 4), None);
    assert_eq!(cache.peek("c", 4), Some(&3));
    assert_eq!(cache.resume("a", 4), Resumed::Ready);
    cache.begin("d", 5);
    cache.complete("d", 4, 5, None);
    assert_eq!(cache.peek("a", 6), None);
    assert_eq!(cache.peek("c", 6), Some(&3));
    assert_eq!(cache.peek("d", 6), Some(&4));
}

#[test]
fn cache_may_exceed_its_capacity_only_by_awaited_results() {
    let mut cache: ResultCache<u32, String> = ResultCache::new(1, 1000, 50);
    cache.begin("a", 0);
    assert_eq!(cache.begin("a", 0), Ticket::Wait);
    cache.complete("a", 1, 1, None);
    cache.begin("b", 2);
    assert_eq!(cache.begin("b", 2), Ticket::Wait);
    cache.complete("b", 2, 2, None);
    assert_eq!(cache.len(), 2);
    assert_eq!(cache.resume("a", 3), Resumed::Ready);
    assert_eq!(cache.len(), 1);
    assert_eq!(cache.peek("a", 3), None);
    assert_eq!(cache.resume("b", 3), Resumed::Ready);
    assert_eq!(cache.len(), 1);
    assert_eq!(cache.peek("b", 3), Some(&2));
}

#[test]
fn waiter_that_gives_up_leaves_the_others_waiting() {
    let mut cache: ResultCache<u32, String> = ResultCache::new(4, 10, 50);
    assert_eq!(cache.begin("a", 0), Ticket::Lead);
    assert_eq!(cache.begin("a", 1), Ticket::Wait);
    assert_eq!(cache.begin("a", 1), Ticket::Wait);
    cache.withdraw("a");
    assert_eq!(cache.begin("a", 2), Ticket::Wait);
    cache.withdraw("a");
    cache.complete("a", 7, 3, None);
    assert_eq!(cache.awaited_value("a"), Some(&7));
    assert_eq!(cache.resume("a", 4), Resumed::Ready);
    assert_eq!(cache.awaited_value("a"), None);
    assert_eq!(cache.peek("a", 4), Some(&7));
}

#[test]
fn waiter_that_gives_up_after_the_report_frees_what_it_was_owed() {
    let mut cache: ResultCache<u32, String> = ResultCache::new(1, 10, 50);
    cache.begin("a", 0);
    assert_eq!(cache.begin("a", 1), Ticket::Wait);
    cache.fail("a", "down".to_string());
    assert_eq!(cache.owed_failure("a"), Some(&"down".to_string()));
    cache.withdraw("a");
    assert_eq!(cache.owed_failure("a"), None);
    cache.begin("b", 2);
    assert_eq!(cache.begin("b", 2), Ticket::Wait);
    cache.complete("b", 2, 3, None);
    cache.begin("c", 4);
    cache.complete("c", 3, 4, None);
    assert_eq!(cache.len(), 1);
    assert_eq!(cache.peek("c", 5), None);
    assert_eq!(cache.awaited_value("b"), Some(&2));
    cache.withdraw("b");
    assert_eq!(cache.awaited_value("b"), None);
    assert_eq!(cache.peek("b", 5), Some(&2));
    cache.withdraw("nobody");
    assert_eq!(cache.len(), 1);
}

#[test]
fn result_that_finds_no_room_is_not_stored() {
    let mut cache: ResultCache<u32, String> = ResultCache::new(1, 10, 50);
    cache.begin("a", 0);
    assert_eq!(cache.begin("a", 0), Ticket::Wait);
    cache.complete("a", 1, 1, None);
    assert_eq!(cache.begin("b", 2), Ticket::Lead);
    cache.complete("b", 2, 2, None);
    assert_eq!(cache.len(), 1);
    assert_eq!(cache.peek("b", 3), None);
    assert_eq!(cache.begin("b", 3), Ticket::Lead);
}
