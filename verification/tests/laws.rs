use task_tracker::models::Status;
use task_tracker::task_manager::TaskManager;

#[test]
fn add_ids_increase_by_one_from_one() {
    let mut m = TaskManager::new();
    for k in 0..5u64 {
        let t = m.add_task(format!("task {}", k), 50 + k);
        assert_eq!(t.id as u64, k + 1);
    }
    let all = m.list_tasks(None).unwrap();
    assert_eq!(all.len(), 5);
    for (i, t) in all.iter().enumerate() {
        assert_eq!(t.id as usize, i + 1);
    }
}

#[test]
fn add_then_list_all_shows_the_new_task() {
    let mut m = TaskManager::new();
    m.add_task("only one".to_string(), 7);
    let all = m.list_tasks(Some("all".to_string())).unwrap();
    assert_eq!(all.len(), 1);
    assert_eq!(all[0].description, "only one");
    assert_eq!(all[0].status, Status::Todo);
}

#[test]
fn delete_absent_changes_nothing() {
    let mut m = TaskManager::new();
    m.add_task("keep me".to_string(), 10);
    let before = m.save_tasks();
    assert!(m.delete_task(42).is_err());
    assert_eq!(m.save_tasks(), before);
}

#[test]
fn transition_to_same_status_is_a_noop() {
    let mut m = TaskManager::new();
    m.add_task("idle".to_string(), 10);
    let before = m.save_tasks();
    let (t, changed) = m.restart_task(1, 99).unwrap();
    assert!(!changed);
    assert_eq!(t.updated_at, 10);
    // Nothing changed, so the serialized collection is identical and
    // no rewrite of storage is owed.
    assert_eq!(m.save_tasks(), before);
}

#[test]
fn transition_to_new_status_refreshes_updated_at() {
    let mut m = TaskManager::new();
    m.add_task("moving".to_string(), 10);
    let (t, changed) = m.mark_in_progress_task(1, 25).unwrap();
    assert!(changed);
    assert_eq!(t.status, Status::InProgress);
    assert_eq!(t.updated_at, 25);
    assert!(t.updated_at > 10);
    assert_eq!(t.created_at, 10);
}

#[test]
fn list_done_and_not_done_split_the_collection() {
    let mut m = TaskManager::new();
    for k in 0..6u64 {
        m.add_task(format!("t{}", k), k);
    }
    m.mark_done(2, 10).unwrap();
    m.mark_done(5, 11).unwrap();

    let done = m.list_tasks(Some("done".to_string())).unwrap();
    let not_done = m.list_tasks(Some("not-done".to_string())).unwrap();
    let all = m.list_tasks(Some("all".to_string())).unwrap();

    let done_ids: Vec<u32> = done.iter().map(|t| t.id).collect();
    let not_done_ids: Vec<u32> = not_done.iter().map(|t| t.id).collect();
    assert_eq!(done_ids, vec![2, 5]);
    assert_eq!(not_done_ids, vec![1, 3, 4, 6]);
    assert_eq!(done.len() + not_done.len(), all.len());
    assert!(done.iter().all(|t| t.status == Status::Done));
    assert!(not_done.iter().all(|t| t.status != Status::Done));
}

#[test]
fn list_in_progress_selects_exactly_that_status() {
    let mut m = TaskManager::new();
    m.add_task("a".to_string(), 1);
    m.add_task("b".to_string(), 2);
    m.mark_in_progress_task(2, 3).unwrap();
    let working = m.list_tasks(Some("in-progress".to_string())).unwrap();
    assert_eq!(working.len(), 1);
    assert_eq!(working[0].id, 2);
}

#[test]
fn scenario_buy_milk_write_report() {
    let mut m = TaskManager::new();
    let a = m.add_task("Buy milk".to_string(), 100);
    assert_eq!(a.id, 1);
    let b = m.add_task("Write report".to_string(), 101);
    assert_eq!(b.id, 2);
    m.mark_done(2, 102).unwrap();

    let not_done = m.list_tasks(Some("not-done".to_string())).unwrap();
    assert_eq!(not_done.len(), 1);
    assert_eq!(not_done[0].id, 1);
    assert_eq!(not_done[0].status, Status::Todo);

    let done = m.list_tasks(Some("done".to_string())).unwrap();
    assert_eq!(done.len(), 1);
    assert_eq!(done[0].id, 2);
}
