use progress::ds::{day_of_timestamp, same_day, Store, Task};
use progress::ops::StoreError;

const DAY: i64 = 86400;

fn task(
    id: u32,
    done: bool,
    label: &str,
    date_created: i64,
    date_checked: Option<i64>,
) -> Task {
    Task { id, done, label: label.to_string(), date_created, date_checked }
}

#[test]
fn day_of_timestamp_boundaries() {
    assert_eq!(day_of_timestamp(0), 0);
    assert_eq!(day_of_timestamp(86399), 0);
    assert_eq!(day_of_timestamp(86400), 1);
    assert_eq!(day_of_timestamp(-1), -1);
    assert_eq!(day_of_timestamp(-86400), -1);
    assert_eq!(day_of_timestamp(-86401), -2);
    assert_eq!(day_of_timestamp(1700000000), 19675);
}

#[test]
fn same_day_compares_utc_days() {
    assert!(same_day(0, 86399));
    assert!(!same_day(86399, 86400));
    assert!(same_day(-1, -86400));
    assert!(!same_day(-1, 0));
}

#[test]
fn add_task_assigns_sequential_ids() {
    let now: i64 = 1700000000;
    let mut st = Store::new();
    st.metadata.last_task_id = 5;
    let a = st.add_task("first".to_string(), now);
    let b = st.add_task("second".to_string(), now);
    let c = st.add_task("third".to_string(), now);
    assert_eq!((a, b, c), (5, 6, 7));
    assert_eq!(st.metadata.last_task_id, 8);
    assert_eq!(st.tasks.len(), 3);
    assert_eq!(st.tasks[0].label, "first");
    assert_eq!(st.tasks[2].id, 7);
    assert!(!st.tasks[0].done);
    assert_eq!(st.tasks[0].date_created, now);
    assert_eq!(st.tasks[0].date_checked, None);
}

#[test]
fn find_task_returns_first_match() {
    let mut st = Store::new();
    st.tasks = vec![task(1, false, "a", 0, None), task(2, false, "b", 0, None)];
    assert_eq!(st.find_task(2).map(|t| t.label.as_str()), Some("b"));
    assert!(st.find_task(9).is_none());
}

#[test]
fn remove_task_succeeds_only_on_creation_day() {
    let now: i64 = 1700000000;
    let mut st = Store::new();
    st.tasks = vec![task(0, false, "today", now - 100, None)];
    assert_eq!(st.remove_task(0, now), Ok(()));
    assert_eq!(st.tasks.len(), 0);

    st.tasks = vec![task(1, false, "yesterday", now - DAY, None)];
    assert_eq!(st.remove_task(1, now), Err(StoreError::NotCreatedToday));
    assert_eq!(st.tasks.len(), 1);
    assert_eq!(st.tasks[0].label, "yesterday");
}

#[test]
fn remove_task_unknown_id_is_not_found() {
    let mut st = Store::new();
    st.tasks = vec![task(0, false, "a", 0, None)];
    assert_eq!(st.remove_task(3, 0), Err(StoreError::NotFound));
    assert_eq!(st.tasks.len(), 1);
}

#[test]
fn remove_task_moves_last_task_into_the_gap() {
    let now: i64 = 1700000000;
    let mut st = Store::new();
    st.tasks = vec![
        task(0, false, "a", now, None),
        task(1, false, "b", now, None),
        task(2, false, "c", now, None),
    ];
    assert_eq!(st.remove_task(0, now), Ok(()));
    assert_eq!(st.tasks.len(), 2);
    assert_eq!(st.tasks[0].id, 2);
    assert_eq!(st.tasks[1].id, 1);
}

#[test]
fn relabel_task_refuses_done_and_unknown_tasks() {
    let mut st = Store::new();
    st.tasks = vec![task(0, true, "done", 0, Some(1)), task(1, false, "open", 0, None)];
    assert_eq!(st.relabel_task(0, "renamed"), Err(StoreError::AlreadyDone));
    assert_eq!(st.tasks[0].label, "done");
    assert_eq!(st.relabel_task(9, "renamed"), Err(StoreError::NotFound));
    assert_eq!(st.relabel_task(1, "renamed"), Ok(()));
    assert_eq!(st.tasks[1].label, "renamed");
}

#[test]
fn toggle_check_marks_done_with_timestamp() {
    let now: i64 = 1700000000;
    let mut st = Store::new();
    st.tasks = vec![task(0, false, "a", now - 10 * DAY, None)];
    assert_eq!(st.toggle_check_task(0, true, now), Ok(()));
    assert!(st.tasks[0].done);
    assert_eq!(st.tasks[0].date_checked, Some(now));
}

#[test]
fn toggle_check_twice_fails_and_keeps_first_stamp() {
    let now: i64 = 1700000000;
    let mut st = Store::new();
    st.tasks = vec![task(0, false, "a", now, None)];
    assert_eq!(st.toggle_check_task(0, true, now), Ok(()));
    assert_eq!(st.toggle_check_task(0, true, now + 50), Err(StoreError::AlreadyDone));
    assert_eq!(st.tasks[0].date_checked, Some(now));
    assert!(st.tasks[0].done);
}

#[test]
fn toggle_uncheck_requires_done_state() {
    let mut st = Store::new();
    st.tasks = vec![task(0, false, "a", 0, None)];
    assert_eq!(st.toggle_check_task(0, false, 0), Err(StoreError::NotDoneYet));
    assert_eq!(st.tasks[0].date_checked, None);
}

#[test]
fn toggle_uncheck_succeeds_only_on_creation_day() {
    let now: i64 = 1700000000;
    let mut st = Store::new();
    st.tasks = vec![task(0, true, "today", now - 100, Some(now - 50))];
    assert_eq!(st.toggle_check_task(0, false, now), Ok(()));
    assert!(!st.tasks[0].done);
    assert_eq!(st.tasks[0].date_checked, None);

    st.tasks = vec![task(1, true, "yesterday", now - DAY, Some(now - 50))];
    assert_eq!(st.toggle_check_task(1, false, now), Err(StoreError::NotCreatedToday));
    assert!(st.tasks[0].done);
    assert_eq!(st.tasks[0].date_checked, Some(now - 50));
}

#[test]
fn toggle_check_unknown_id_is_not_found() {
    let mut st = Store::new();
    assert_eq!(st.toggle_check_task(4, true, 0), Err(StoreError::NotFound));
}

#[test]
fn summarize_counts_buckets_and_date_range() {
    let now: i64 = 1700000000;
    let mut st = Store::new();
    st.tasks = vec![
        task(0, false, "today open", now - 10, None),
        task(1, true, "today done", now - 20, Some(now - 5)),
        task(2, false, "carry over", now - 2 * DAY, None),
        task(3, true, "done long ago", now - 3 * DAY, Some(now - 2 * DAY)),
    ];
    let s = st.summarize(now);
    assert_eq!(s.total, 4);
    assert_eq!(s.completed, 2);
    assert_eq!(s.incomplete, 2);
    assert_eq!(s.created_today, 2);
    assert_eq!(s.done_today, 1);
    assert_eq!(s.done_before_today, 1);
    assert_eq!(s.carry_over, 1);
    assert_eq!(s.earliest_created, Some(now - 3 * DAY));
    assert_eq!(s.latest_created, Some(now - 10));
}

#[test]
fn summarize_empty_store_has_no_date_range() {
    let st = Store::new();
    let s = st.summarize(1700000000);
    assert_eq!(s.total, 0);
    assert_eq!(s.completed, 0);
    assert_eq!(s.earliest_created, None);
    assert_eq!(s.latest_created, None);
}

#[test]
fn summarize_basic_counts_overlapping_pending_buckets() {
    let now: i64 = 1700000000;
    let mut st = Store::new();
    st.tasks = vec![
        task(0, false, "pending today", now, None),
        task(1, false, "pending old", now - 2 * DAY, None),
        task(2, true, "done today", now, Some(now)),
        task(3, true, "done old", now - 2 * DAY, Some(now - DAY)),
    ];
    let s = st.summarize_basic(now);
    assert_eq!(s.pending_today, 2);
    assert_eq!(s.pending_previous_days, 1);
}

#[test]
fn scenario_add_check_encode_decode() {
    let now: i64 = 1700000000;
    let mut st = Store::new();
    let id = st.add_task("buy milk".to_string(), now);
    assert_eq!(id, 0);
    let s = st.summarize(now);
    assert_eq!(s.total, 1);
    assert_eq!(s.completed, 0);
    assert_eq!(s.created_today, 1);

    assert_eq!(st.toggle_check_task(0, true, now + 60), Ok(()));
    assert!(st.tasks[0].done);
    assert_eq!(st.toggle_check_task(0, true, now + 120), Err(StoreError::AlreadyDone));

    let back = Store::decode(&st.encode()).unwrap();
    assert_eq!(back.tasks.len(), 1);
    assert!(back.tasks[0].done);
    assert_eq!(back.tasks[0].label, "buy milk");
    assert_eq!(back.tasks[0].date_checked, Some(now + 60));
    assert_eq!(back.metadata.last_task_id, 1);
}

#[test]
fn summarize_a_freshly_decoded_store() {
    let now: i64 = 1700000000;
    let text = ":metadata\n2\n:end\n\
                :task\n0\n[]\nopen one\n1699900000\n-\n:end\n\
                :task\n1\n[x]\nclosed one\n1699900000\n1699990000\n:end\n";
    let st = Store::decode(text).unwrap();
    let s = st.summarize(now);
    assert_eq!(s.total, 2);
    assert_eq!(s.completed, 1);
    assert_eq!(s.carry_over, 1);
    assert_eq!(s.earliest_created, Some(1699900000));
    assert_eq!(s.latest_created, Some(1699900000));
}

#[test]
fn scenario_yesterdays_task_carries_over_and_resists_removal() {
    let now: i64 = 1700000000;
    let mut st = Store::new();
    st.tasks = vec![task(0, false, "from yesterday", now - DAY, None)];
    st.metadata.last_task_id = 1;
    assert_eq!(st.remove_task(0, now), Err(StoreError::NotCreatedToday));
    let s = st.summarize(now);
    assert_eq!(s.carry_over, 1);
    assert_eq!(s.created_today, 0);
    assert_eq!(s.total, 1);
}
