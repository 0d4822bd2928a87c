use todo_api::domain::Label;
use todo_api::domain::TodoEntity;
use todo_api::domain::TodoWithLabelFromRow;
use todo_api::fold::fold_entities;
use todo_api::fold::fold_entity;

#[test]
fn fold_entities_test() {
    let label_1 = Label {
        id: 1,
        name: String::from("label 1"),
    };
    let label_2 = Label {
        id: 2,
        name: String::from("label 2"),
    };
    let rows = vec![
        TodoWithLabelFromRow {
            id: 1,
            text: String::from("todo 1"),
            completed: false,
            label_id: Some(label_1.id),
            label_name: Some(label_1.name.clone()),
        },
        TodoWithLabelFromRow {
            id: 1,
            text: String::from("todo 1"),
            completed: false,
            label_id: Some(label_2.id),
            label_name: Some(label_2.name.clone()),
        },
        TodoWithLabelFromRow {
            id: 2,
            text: String::from("todo 2"),
            completed: false,
            label_id: Some(label_1.id),
            label_name: Some(label_1.name.clone()),
        },
    ];
    let res = fold_entities(rows);
    assert_eq!(
        res,
        vec![
            TodoEntity {
                id: 1,
                text: String::from("todo 1"),
                completed: false,
                labels: vec![label_1.clone(), label_2.clone()],
            },
            TodoEntity {
                id: 2,
                text: String::from("todo 2"),
                completed: false,
                labels: vec![label_1.clone()],
            },
        ]
    );
}

#[test]
fn fold_example_with_null_label_row() {
    let rows = vec![
        TodoWithLabelFromRow {
            id: 1,
            text: String::from("buy milk"),
            completed: false,
            label_id: Some(10),
            label_name: Some(String::from("home")),
        },
        TodoWithLabelFromRow {
            id: 1,
            text: String::from("buy milk"),
            completed: false,
            label_id: Some(20),
            label_name: Some(String::from("errand")),
        },
        TodoWithLabelFromRow {
            id: 2,
            text: String::from("pay bills"),
            completed: false,
            label_id: None,
            label_name: None,
        },
    ];
    let res = fold_entities(rows);
    assert_eq!(
        res,
        vec![
            TodoEntity {
                id: 1,
                text: String::from("buy milk"),
                completed: false,
                labels: vec![
                    Label {
                        id: 10,
                        name: String::from("home"),
                    },
                    Label {
                        id: 20,
                        name: String::from("errand"),
                    },
                ],
            },
            TodoEntity {
                id: 2,
                text: String::from("pay bills"),
                completed: false,
                labels: vec![],
            },
        ]
    );
}

#[test]
fn fold_deduplicates_repeated_labels() {
    let row = |label_id: i32| TodoWithLabelFromRow {
        id: 7,
        text: String::from("t"),
        completed: true,
        label_id: Some(label_id),
        label_name: Some(String::from("l")),
    };
    let res = fold_entities(vec![row(3), row(3), row(4), row(3)]);
    assert_eq!(res.len(), 1);
    assert_eq!(res[0].labels.len(), 2);
    assert_eq!(res[0].labels[0].id, 3);
    assert_eq!(res[0].labels[1].id, 4);
}

#[test]
fn fold_is_not_order_sensitive_in_content() {
    let rows = |order: [usize; 4]| {
        let all = [
            (1, "a", Some(10)),
            (2, "b", None),
            (1, "a", Some(11)),
            (2, "b", Some(12)),
        ];
        order
            .iter()
            .map(|&i| {
                let (id, text, label) = all[i];
                TodoWithLabelFromRow {
                    id,
                    text: String::from(text),
                    completed: false,
                    label_id: label,
                    label_name: label.map(|l| format!("label {}", l)),
                }
            })
            .collect::<Vec<_>>()
    };
    let first = fold_entities(rows([0, 1, 2, 3]));
    let second = fold_entities(rows([3, 2, 1, 0]));
    assert_eq!(first.len(), second.len());
    for t in &first {
        let other = second.iter().find(|o| o.id == t.id).expect("same id set");
        assert_eq!(t.text, other.text);
        assert_eq!(t.completed, other.completed);
        let mut ids: Vec<i32> = t.labels.iter().map(|l| l.id).collect();
        let mut other_ids: Vec<i32> = other.labels.iter().map(|l| l.id).collect();
        ids.sort();
        other_ids.sort();
        assert_eq!(ids, other_ids);
    }
}

#[test]
fn fold_entity_keeps_the_row_fields() {
    let row = TodoWithLabelFromRow {
        id: 5,
        text: String::from("single"),
        completed: true,
        label_id: Some(9),
        label_name: Some(String::from("only")),
    };
    let todo = fold_entity(row);
    assert_eq!(
        todo,
        TodoEntity {
            id: 5,
            text: String::from("single"),
            completed: true,
            labels: vec![Label {
                id: 9,
                name: String::from("only"),
            }],
        }
    );
}

#[test]
fn fold_entity_without_label_yields_empty_list() {
    let row = TodoWithLabelFromRow {
        id: 6,
        text: String::from("bare"),
        completed: false,
        label_id: None,
        label_name: None,
    };
    let todo = fold_entity(row);
    assert_eq!(todo.labels.len(), 0);
    assert_eq!(todo.id, 6);
}

#[test]
fn fold_empty_input_folds_to_empty_output() {
    let res = fold_entities(vec![]);
    assert!(res.is_empty());
}

#[test]
fn fold_twice_yields_the_same_entities() {
    // Flatten a folded result back into rows by hand and fold again.
    let rows = vec![
        TodoWithLabelFromRow {
            id: 1,
            text: String::from("a"),
            completed: false,
            label_id: Some(10),
            label_name: Some(String::from("x")),
        },
        TodoWithLabelFromRow {
            id: 2,
            text: String::from("b"),
            completed: true,
            label_id: None,
            label_name: None,
        },
        TodoWithLabelFromRow {
            id: 1,
            text: String::from("a"),
            completed: false,
            label_id: Some(11),
            label_name: Some(String::from("y")),
        },
    ];
    let folded = fold_entities(rows);
    let mut reflattened: Vec<TodoWithLabelFromRow> = Vec::new();
    for t in &folded {
        if t.labels.is_empty() {
            reflattened.push(TodoWithLabelFromRow {
                id: t.id,
                text: t.text.clone(),
                completed: t.completed,
                label_id: None,
                label_name: None,
            });
        } else {
            for l in &t.labels {
                reflattened.push(TodoWithLabelFromRow {
                    id: t.id,
                    text: t.text.clone(),
                    completed: t.completed,
                    label_id: Some(l.id),
                    label_name: Some(l.name.clone()),
                });
            }
        }
    }
    let folded_again = fold_entities(reflattened);
    assert_eq!(folded, folded_again);
}
