use todo_api::domain::Label;
use todo_api::domain::RepositoryError;
use todo_api::domain::TodoEntity;
use todo_api::domain::TodoWithLabelFromRow;
use todo_api::domain::UpdateTodo;
use todo_api::relational::StorageError;
use todo_api::relational::classify_storage_error;
use todo_api::relational::find_todo_result;
use todo_api::relational::label_create_outcome;
use todo_api::relational::merge_update;
use todo_api::relational::rows_affected_outcome;

#[test]
fn missing_row_maps_to_not_found() {
    let e = classify_storage_error(StorageError::RowNotFound, 4);
    assert_eq!(e, RepositoryError::NotFound(4));
}

#[test]
fn other_storage_failures_map_to_unexpected() {
    let e = classify_storage_error(StorageError::Other("connection lost".to_string()), 4);
    assert_eq!(e, RepositoryError::Unexpected("connection lost".to_string()));
}

#[test]
fn find_returns_first_folded_entity() {
    let rows = vec![
        TodoWithLabelFromRow {
            id: 3,
            text: String::from("only"),
            completed: false,
            label_id: Some(1),
            label_name: Some(String::from("l1")),
        },
        TodoWithLabelFromRow {
            id: 3,
            text: String::from("only"),
            completed: false,
            label_id: Some(2),
            label_name: Some(String::from("l2")),
        },
    ];
    let found = find_todo_result(rows, 3).unwrap();
    assert_eq!(
        found,
        TodoEntity {
            id: 3,
            text: String::from("only"),
            completed: false,
            labels: vec![
                Label {
                    id: 1,
                    name: String::from("l1"),
                },
                Label {
                    id: 2,
                    name: String::from("l2"),
                },
            ],
        }
    );
}

#[test]
fn find_without_rows_reports_not_found() {
    assert_eq!(
        find_todo_result(vec![], 9),
        Err(RepositoryError::NotFound(9))
    );
}

#[test]
fn merge_update_keeps_unset_fields() {
    let current = TodoEntity {
        id: 1,
        text: String::from("x"),
        completed: false,
        labels: vec![],
    };
    let (text, completed) = merge_update(
        UpdateTodo {
            text: None,
            completed: Some(true),
        },
        &current,
    );
    assert_eq!(text, String::from("x"));
    assert!(completed);

    let (text, completed) = merge_update(
        UpdateTodo {
            text: Some(String::from("y")),
            completed: None,
        },
        &current,
    );
    assert_eq!(text, String::from("y"));
    assert!(!completed);
}

#[test]
fn zero_rows_affected_is_not_found() {
    assert_eq!(
        rows_affected_outcome(0, 11),
        Err(RepositoryError::NotFound(11))
    );
    assert_eq!(rows_affected_outcome(1, 11), Ok(()));
}

#[test]
fn existing_label_stops_creation_as_duplicate() {
    let existing = Label {
        id: 8,
        name: String::from("taken"),
    };
    assert_eq!(
        label_create_outcome(Some(existing)),
        Err(RepositoryError::Duplicate(8))
    );
    assert_eq!(label_create_outcome(None), Ok(()));
}
