use todo_api::domain::CreateTodo;
use todo_api::domain::RepositoryError;
use todo_api::domain::TodoEntity;
use todo_api::domain::UpdateTodo;
use todo_api::memory::LabelRepositoryForMemory;
use todo_api::memory::SharedTodoRepository;
use todo_api::memory::TodoRepositoryForMemory;
use todo_api::repository::LabelRepository;
use todo_api::repository::TodoRepository;

#[test]
fn memory_crud_scenario() {
    let text = "todo text".to_string();
    let mut repository = TodoRepositoryForMemory::new();

    // create
    let todo = repository
        .create(CreateTodo::new(text.clone(), vec![]))
        .expect("failed create todo");
    let expected = TodoEntity {
        id: 1,
        text: text.clone(),
        completed: false,
        labels: vec![],
    };
    assert_eq!(expected, todo);

    // find
    let todo = repository.find(todo.id).unwrap();
    assert_eq!(expected, todo);

    // all
    let todos = repository.all().expect("failed get all todo");
    assert_eq!(vec![expected], todos);

    // update
    let text = "update todo text".to_string();
    let todo = repository
        .update(
            1,
            UpdateTodo {
                text: Some(text.clone()),
                completed: Some(true),
            },
        )
        .expect("failed update todo.");
    assert_eq!(
        TodoEntity {
            id: 1,
            text,
            completed: true,
            labels: vec![]
        },
        todo
    );

    // delete
    repository.delete(1).expect("failed delete todo");
    assert!(repository.find(1).is_err());
    assert_eq!(repository.all().unwrap().len(), 0);
}

#[test]
fn create_then_find_round_trip() {
    let mut repository = TodoRepositoryForMemory::new();
    let created = repository
        .create(CreateTodo::new("round trip".to_string(), vec![2, 3]))
        .unwrap();
    let found = repository.find(created.id).unwrap();
    assert_eq!(created, found);
}

#[test]
fn update_merges_unset_fields() {
    let mut repository = TodoRepositoryForMemory::new();
    repository
        .create(CreateTodo::new("x".to_string(), vec![]))
        .unwrap();
    let updated = repository
        .update(
            1,
            UpdateTodo {
                text: None,
                completed: Some(true),
            },
        )
        .unwrap();
    assert_eq!(
        updated,
        TodoEntity {
            id: 1,
            text: "x".to_string(),
            completed: true,
            labels: vec![],
        }
    );
    // The stored todo changed the same way.
    assert_eq!(repository.find(1).unwrap(), updated);
}

#[test]
fn update_merges_unset_completed() {
    let mut repository = TodoRepositoryForMemory::new();
    repository
        .create(CreateTodo::new("keep me".to_string(), vec![]))
        .unwrap();
    repository
        .update(
            1,
            UpdateTodo {
                text: None,
                completed: Some(true),
            },
        )
        .unwrap();
    let updated = repository
        .update(
            1,
            UpdateTodo {
                text: Some("new text".to_string()),
                completed: None,
            },
        )
        .unwrap();
    assert_eq!(updated.text, "new text".to_string());
    assert!(updated.completed);
}

#[test]
fn delete_missing_id_reports_not_found_before_and_after_mutations() {
    let mut repository = TodoRepositoryForMemory::new();
    assert_eq!(repository.delete(42), Err(RepositoryError::NotFound(42)));

    // Unrelated mutations do not make the id present.
    repository
        .create(CreateTodo::new("unrelated".to_string(), vec![]))
        .unwrap();
    repository
        .update(
            1,
            UpdateTodo {
                text: None,
                completed: Some(true),
            },
        )
        .unwrap();
    assert_eq!(repository.delete(42), Err(RepositoryError::NotFound(42)));
}

#[test]
fn find_missing_id_reports_not_found() {
    let repository = TodoRepositoryForMemory::new();
    assert_eq!(repository.find(1), Err(RepositoryError::NotFound(1)));
}

#[test]
fn update_missing_id_reports_not_found() {
    let mut repository = TodoRepositoryForMemory::new();
    assert_eq!(
        repository.update(
            9,
            UpdateTodo {
                text: None,
                completed: None,
            },
        ),
        Err(RepositoryError::NotFound(9))
    );
}

#[test]
fn fresh_creates_assign_distinct_increasing_ids() {
    let mut repository = TodoRepositoryForMemory::new();
    let n: i32 = 10;
    let mut ids: Vec<i32> = Vec::new();
    for k in 0..n {
        let todo = repository
            .create(CreateTodo::new(format!("todo {}", k), vec![]))
            .unwrap();
        ids.push(todo.id);
    }
    let expected: Vec<i32> = (1..=n).collect();
    assert_eq!(ids, expected);
    // No lost updates: every todo is still there with its own text.
    let all = repository.all().unwrap();
    assert_eq!(all.len(), n as usize);
    for (k, todo) in all.iter().enumerate() {
        assert_eq!(todo.text, format!("todo {}", k));
    }
}

#[test]
fn create_after_delete_reuses_count_based_id() {
    // The id is the stored count plus one; after a deletion it can meet a
    // stored id again, and the entry under that id is then replaced.
    let mut repository = TodoRepositoryForMemory::new();
    repository
        .create(CreateTodo::new("a".to_string(), vec![]))
        .unwrap();
    repository
        .create(CreateTodo::new("b".to_string(), vec![]))
        .unwrap();
    repository.delete(1).unwrap();
    let replacement = repository
        .create(CreateTodo::new("c".to_string(), vec![]))
        .unwrap();
    assert_eq!(replacement.id, 2);
    let all = repository.all().unwrap();
    assert_eq!(all.len(), 1);
    assert_eq!(all[0].text, "c".to_string());
}

#[test]
fn label_crud_scenario() {
    let mut repository = LabelRepositoryForMemory::new();
    let label = repository
        .create("test label a".to_string())
        .expect("[create] returned Err");
    assert_eq!(label.name, "test label a".to_string());

    let labels = repository.all().expect("[all] returned Err");
    assert_eq!(labels.last().unwrap().name, "test label a".to_string());

    repository
        .delete(label.id)
        .expect("[delete] returned Err");
    assert_eq!(repository.all().unwrap().len(), 0);
}

#[test]
fn label_create_reports_duplicate_name() {
    let mut repository = LabelRepositoryForMemory::new();
    let first = repository.create("home".to_string()).unwrap();
    let second = repository.create("home".to_string());
    assert_eq!(second, Err(RepositoryError::Duplicate(first.id)));
}

#[test]
fn label_delete_missing_id_reports_not_found() {
    let mut repository = LabelRepositoryForMemory::new();
    assert_eq!(repository.delete(5), Err(RepositoryError::NotFound(5)));
}

#[test]
fn label_ids_stay_fresh_after_deletions() {
    let mut repository = LabelRepositoryForMemory::new();
    let a = repository.create("a".to_string()).unwrap();
    let b = repository.create("b".to_string()).unwrap();
    repository.delete(a.id).unwrap();
    let c = repository.create("c".to_string()).unwrap();
    assert_ne!(c.id, b.id);
    assert_eq!(c.id, b.id + 1);
}

#[test]
fn shared_store_crud_scenario() {
    let store = SharedTodoRepository::new();
    let created = store
        .create(CreateTodo::new("shared".to_string(), vec![]))
        .expect("create failed");
    assert_eq!(created.id, 1);
    assert!(!created.completed);

    let found = store.find(created.id).expect("find failed");
    assert_eq!(found, created);

    let updated = store
        .update(
            created.id,
            UpdateTodo {
                text: None,
                completed: Some(true),
            },
        )
        .expect("update failed");
    assert_eq!(updated.text, "shared".to_string());
    assert!(updated.completed);

    assert_eq!(store.all().unwrap().len(), 1);
    store.delete(created.id).expect("delete failed");
    assert_eq!(store.delete(created.id), Err(RepositoryError::NotFound(created.id)));
}
