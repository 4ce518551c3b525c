use task_tracker::models::{Status, StoreError};
use task_tracker::task_manager::TaskManager;

const NOW: u64 = 100;

fn store_with(descriptions: &[&str]) -> TaskManager {
    let mut m = TaskManager::new();
    for d in descriptions {
        m.add_task(d.to_string(), NOW);
    }
    m
}

#[test]
fn test_load_tasks_with_empty_file() {
    let m = TaskManager::load_tasks("").unwrap();
    assert!(m.len() == 0, "Expected no tasks in empty file.");
}

#[test]
fn test_add_task() {
    let mut m = TaskManager::new();
    m.add_task("Test task".to_string(), NOW);
    let data = m.save_tasks();
    let m = TaskManager::load_tasks(&data).unwrap();

    assert_eq!(m.len(), 1);
    let t = m.get_task(1).unwrap();
    assert_eq!(t.description, "Test task");
    assert_eq!(t.status, Status::Todo);
}

#[test]
fn test_update_task() {
    let mut m = store_with(&["Test task"]);

    m.update_task(1, "Updated task".to_string(), NOW + 1).unwrap();
    let data = m.save_tasks();
    let m = TaskManager::load_tasks(&data).unwrap();

    assert_eq!(m.get_task(1).unwrap().description, "Updated task");
}

#[test]
fn test_delete_task() {
    let mut m = store_with(&["Test task"]);

    m.delete_task(1).unwrap();
    let data = m.save_tasks();
    let m = TaskManager::load_tasks(&data).unwrap();

    assert!(m.len() == 0);
}

#[test]
fn test_delete_task_not_found() {
    let mut m = store_with(&["Test task"]);

    assert_eq!(m.delete_task(2), Err(StoreError::NotFound));
    let data = m.save_tasks();
    let m = TaskManager::load_tasks(&data).unwrap();

    assert_eq!(m.len(), 1);
}

#[test]
fn test_mark_in_progress_task() {
    let mut m = store_with(&["Test task"]);

    m.mark_in_progress_task(1, NOW + 1).unwrap();
    let data = m.save_tasks();
    let m = TaskManager::load_tasks(&data).unwrap();

    assert_eq!(m.get_task(1).unwrap().status, Status::InProgress);
}

#[test]
fn test_mark_done() {
    let mut m = store_with(&["Test task"]);

    m.mark_done(1, NOW + 1).unwrap();
    let data = m.save_tasks();
    let m = TaskManager::load_tasks(&data).unwrap();

    assert_eq!(m.get_task(1).unwrap().status, Status::Done);
}

#[test]
fn test_restart_task() {
    let mut m = store_with(&["Test task"]);
    m.mark_done(1, NOW + 1).unwrap();

    m.restart_task(1, NOW + 2).unwrap();
    let data = m.save_tasks();
    let m = TaskManager::load_tasks(&data).unwrap();

    assert_eq!(m.get_task(1).unwrap().status, Status::Todo);
}

#[test]
fn test_list_tasks() {
    let mut m = store_with(&["Task 1", "Task 2"]);
    m.mark_done(2, NOW + 1).unwrap();

    let tasks = m.list_tasks(Some("done".to_string())).unwrap();

    assert_eq!(tasks.len(), 1);
    assert_eq!(tasks[0].description, "Task 2");
    assert_eq!(tasks[0].status, Status::Done);
}

#[test]
fn update_task_not_found() {
    let mut m = store_with(&["Test task"]);
    assert_eq!(
        m.update_task(7, "x".to_string(), NOW).unwrap_err(),
        StoreError::NotFound
    );
    assert_eq!(m.len(), 1);
    assert_eq!(m.get_task(1).unwrap().description, "Test task");
}

#[test]
fn transition_not_found() {
    let mut m = TaskManager::new();
    assert_eq!(m.mark_done(1, NOW).unwrap_err(), StoreError::NotFound);
}

#[test]
fn list_tasks_invalid_filter() {
    let m = store_with(&["Test task"]);
    assert_eq!(
        m.list_tasks(Some("bogus".to_string())).unwrap_err(),
        StoreError::InvalidFilter
    );
}

#[test]
fn list_tasks_empty_match_is_ok() {
    let m = store_with(&["Test task"]);
    let done = m.list_tasks(Some("done".to_string())).unwrap();
    assert!(done.is_empty());
}

#[test]
fn add_uses_clock() {
    let mut m = TaskManager::new();
    let now = task_tracker::task_manager::current_time();
    let t = m.add_task("clocked".to_string(), now);
    assert_eq!(t.created_at, now);
    assert_eq!(t.updated_at, now);
}

#[test]
fn max_id_follows_adds_and_deletes() {
    let mut m = store_with(&["a", "b"]);
    assert_eq!(m.max_id(), 2);
    m.delete_task(2).unwrap();
    assert_eq!(m.max_id(), 1);
    // The next id is one past the highest currently stored, so the
    // deleted highest id is handed out again.
    let t = m.add_task("c".to_string(), NOW);
    assert_eq!(t.id, 2);
}
