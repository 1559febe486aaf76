use todo_store::record::{Priority, Status, Todo};
use todo_store::store::{add, delete, find_by_id, next_id, set_status, update_fields};

fn mk(id: u32, title: &str, created: &str) -> Todo {
    Todo {
        id,
        title: title.to_string(),
        description: format!("about {}", title),
        status: Status::NotCompleted,
        priority: Priority::Medium,
        created: created.to_string(),
    }
}

#[test]
fn id_assignment_scattered() {
    let todos = vec![mk(2, "a", "t0"), mk(5, "b", "t1"), mk(3, "c", "t2")];
    assert_eq!(next_id(&todos), 6);
    let mut todos = todos;
    let id = add(
        &mut todos,
        "d".to_string(),
        "dd".to_string(),
        Status::Completed,
        Priority::Low,
        "t3".to_string(),
    );
    assert_eq!(id, 6);
    assert_eq!(todos.len(), 4);
    assert_eq!(todos[3].id, 6);
}

#[test]
fn id_assignment_empty() {
    let todos: Vec<Todo> = Vec::new();
    assert_eq!(next_id(&todos), 1);
    let mut todos = todos;
    let id = add(
        &mut todos,
        "first".to_string(),
        "d".to_string(),
        Status::NotCompleted,
        Priority::High,
        "t".to_string(),
    );
    assert_eq!(id, 1);
}

#[test]
fn id_reuse_after_deletion() {
    let mut todos: Vec<Todo> = Vec::new();
    for name in ["a", "b", "c"] {
        add(
            &mut todos,
            name.to_string(),
            "d".to_string(),
            Status::NotCompleted,
            Priority::Low,
            "t".to_string(),
        );
    }
    assert_eq!(todos.iter().map(|t| t.id).collect::<Vec<_>>(), vec![1, 2, 3]);
    assert!(delete(&mut todos, 3));
    let id = add(
        &mut todos,
        "again".to_string(),
        "d".to_string(),
        Status::NotCompleted,
        Priority::Low,
        "t".to_string(),
    );
    assert_eq!(id, 3);
}

#[test]
fn ids_stay_unique_through_adds_and_deletes() {
    let mut todos: Vec<Todo> = Vec::new();
    for k in 0..6 {
        add(
            &mut todos,
            format!("t{}", k),
            "d".to_string(),
            Status::NotCompleted,
            Priority::Medium,
            "t".to_string(),
        );
    }
    assert!(delete(&mut todos, 2));
    assert!(delete(&mut todos, 6));
    for k in 0..3 {
        add(
            &mut todos,
            format!("n{}", k),
            "d".to_string(),
            Status::Completed,
            Priority::High,
            "t".to_string(),
        );
    }
    let ids: Vec<u32> = todos.iter().map(|t| t.id).collect();
    for i in 0..ids.len() {
        for j in (i + 1)..ids.len() {
            assert_ne!(ids[i], ids[j], "duplicate id in {:?}", ids);
        }
    }
}

#[test]
fn edit_preserves_identity_fields() {
    let mut todos = vec![mk(1, "a", "t1"), mk(2, "b", "t2"), mk(3, "c", "t3")];
    let found = update_fields(
        &mut todos,
        2,
        "new title".to_string(),
        "new description".to_string(),
        Status::Completed,
        Priority::High,
    );
    assert!(found);
    assert_eq!(todos[1].id, 2);
    assert_eq!(todos[1].created, "t2");
    assert_eq!(todos[1].title, "new title");
    assert_eq!(todos[1].description, "new description");
    assert_eq!(todos[1].status, Status::Completed);
    assert_eq!(todos[1].priority, Priority::High);
    assert_eq!(todos[0].title, "a");
    assert_eq!(todos[2].title, "c");
}

#[test]
fn delete_removes_exactly_one() {
    let mut todos = vec![mk(1, "a", "t1"), mk(2, "b", "t2"), mk(3, "c", "t3")];
    assert!(delete(&mut todos, 2));
    let ids: Vec<u32> = todos.iter().map(|t| t.id).collect();
    assert_eq!(ids, vec![1, 3]);
    assert_eq!(todos[0].title, "a");
    assert_eq!(todos[1].title, "c");
}

#[test]
fn not_found_is_non_fatal() {
    let mut todos = vec![mk(1, "a", "t1"), mk(2, "b", "t2")];
    assert!(!update_fields(
        &mut todos,
        99,
        "x".to_string(),
        "y".to_string(),
        Status::Completed,
        Priority::Low,
    ));
    assert!(!delete(&mut todos, 99));
    assert!(!set_status(&mut todos, 99, Status::Completed));
    assert_eq!(todos.len(), 2);
    assert_eq!(todos[0].title, "a");
    assert_eq!(todos[0].status, Status::NotCompleted);
    assert_eq!(todos[1].title, "b");
}

#[test]
fn toggle_status_changes_only_status() {
    let mut todos = vec![mk(1, "a", "t1"), mk(2, "b", "t2")];
    assert!(set_status(&mut todos, 1, Status::Completed));
    assert_eq!(todos[0].status, Status::Completed);
    assert_eq!(todos[0].title, "a");
    assert_eq!(todos[0].created, "t1");
    assert_eq!(todos[1].status, Status::NotCompleted);
    assert!(set_status(&mut todos, 1, Status::NotCompleted));
    assert_eq!(todos[0].status, Status::NotCompleted);
}

#[test]
fn find_by_id_reports_first_match() {
    let todos = vec![mk(4, "a", "t"), mk(7, "b", "t")];
    assert_eq!(find_by_id(&todos, 7), Some(1));
    assert_eq!(find_by_id(&todos, 5), None);
}

#[test]
fn status_and_priority_codes() {
    assert_eq!(Status::from_code(0), Some(Status::Completed));
    assert_eq!(Status::from_code(1), Some(Status::NotCompleted));
    assert_eq!(Status::from_code(2), None);
    assert_eq!(Status::Completed.code(), 0);
    assert_eq!(Priority::from_code(1), Some(Priority::High));
    assert_eq!(Priority::from_code(2), Some(Priority::Medium));
    assert_eq!(Priority::from_code(3), Some(Priority::Low));
    assert_eq!(Priority::from_code(0), None);
    assert_eq!(Priority::from_code(4), None);
    assert_eq!(Priority::Low.code(), 3);
}
