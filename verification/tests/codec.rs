use task_tracker::models::{Status, StoreError};
use task_tracker::task_manager::TaskManager;

#[test]
fn save_writes_the_exact_record_text() {
    let mut m = TaskManager::new();
    m.add_task("Buy milk".to_string(), 100);
    assert_eq!(
        m.save_tasks(),
        "[{\"id\":1,\"description\":\"Buy milk\",\"status\":\"Todo\",\"created_at\":100,\"updated_at\":100}]"
    );
}

#[test]
fn save_empty_store_writes_empty_array() {
    let m = TaskManager::new();
    assert_eq!(m.save_tasks(), "[]");
}

#[test]
fn load_empty_array_is_empty_store() {
    let m = TaskManager::load_tasks("[]").unwrap();
    assert_eq!(m.len(), 0);
}

#[test]
fn round_trip_keeps_every_field() {
    let mut m = TaskManager::new();
    m.add_task("plain".to_string(), 3);
    m.add_task("quo\"te and back\\slash \\\" mix".to_string(), 4);
    m.add_task("unicode: déjà vu ✓".to_string(), u64::MAX);
    m.mark_in_progress_task(2, 9).unwrap();
    m.mark_done(3, u64::MAX).unwrap();

    let data = m.save_tasks();
    let n = TaskManager::load_tasks(&data).unwrap();

    assert_eq!(n.len(), 3);
    for id in 1..=3u32 {
        let a = m.get_task(id).unwrap();
        let b = n.get_task(id).unwrap();
        assert_eq!(a.id, b.id);
        assert_eq!(a.description, b.description);
        assert_eq!(a.status, b.status);
        assert_eq!(a.created_at, b.created_at);
        assert_eq!(a.updated_at, b.updated_at);
    }
}

#[test]
fn round_trip_of_the_empty_store() {
    let m = TaskManager::new();
    let n = TaskManager::load_tasks(&m.save_tasks()).unwrap();
    assert_eq!(n.len(), 0);
}

#[test]
fn load_rejects_garbage() {
    for bad in [
        "not json",
        "[",
        "[]x",
        "[{\"id\":1}]",
        "[{\"id\":1,\"description\":\"a\",\"status\":\"Nope\",\"created_at\":1,\"updated_at\":1}]",
        "[{\"id\":1,\"description\":\"a\",\"status\":\"Todo\",\"created_at\":1,\"updated_at\":1}",
        "[{\"id\":99999999999999999999,\"description\":\"a\",\"status\":\"Todo\",\"created_at\":1,\"updated_at\":1}]",
        "[{\"id\":1,\"description\":\"unterminated,\"status\":\"Todo\",\"created_at\":1,\"updated_at\":1}]",
    ] {
        match TaskManager::load_tasks(bad) {
            Err(e) => assert_eq!(e, StoreError::Corrupt),
            Ok(_) => panic!("accepted: {}", bad),
        }
    }
}

#[test]
fn load_rejects_broken_invariants() {
    // Ids out of order, a duplicate id, a zero id, and an update time
    // before the creation time are not valid store content.
    let out_of_order = "[{\"id\":2,\"description\":\"a\",\"status\":\"Todo\",\"created_at\":1,\"updated_at\":1},{\"id\":1,\"description\":\"b\",\"status\":\"Todo\",\"created_at\":1,\"updated_at\":1}]";
    let duplicate = "[{\"id\":1,\"description\":\"a\",\"status\":\"Todo\",\"created_at\":1,\"updated_at\":1},{\"id\":1,\"description\":\"b\",\"status\":\"Todo\",\"created_at\":1,\"updated_at\":1}]";
    let zero_id = "[{\"id\":0,\"description\":\"a\",\"status\":\"Todo\",\"created_at\":1,\"updated_at\":1}]";
    let backwards = "[{\"id\":1,\"description\":\"a\",\"status\":\"Todo\",\"created_at\":5,\"updated_at\":4}]";
    for bad in [out_of_order, duplicate, zero_id, backwards] {
        match TaskManager::load_tasks(bad) {
            Err(e) => assert_eq!(e, StoreError::Corrupt),
            Ok(_) => panic!("accepted: {}", bad),
        }
    }
}

#[test]
fn load_accepts_what_another_store_wrote() {
    let data = "[{\"id\":3,\"description\":\"esc \\\\ and \\\" done\",\"status\":\"InProgress\",\"created_at\":7,\"updated_at\":8}]";
    let m = TaskManager::load_tasks(data).unwrap();
    let t = m.get_task(3).unwrap();
    assert_eq!(t.description, "esc \\ and \" done");
    assert_eq!(t.status, Status::InProgress);
    assert_eq!(t.created_at, 7);
    assert_eq!(t.updated_at, 8);
    assert_eq!(m.save_tasks(), data);
}
