//! Pure decision logic of the relational backend.
//!
//! The relational backend runs parameterized queries against a store and
//! feeds their results through these functions: folding the join rows of
//! a read, extracting a `find` result, merge-patching an update, and
//! translating storage failures into the repository error taxonomy. The
//! querying itself is I/O and lives with the caller that owns the
//! connection; everything that decides is here and verified.

use vstd::prelude::*;

use crate::domain::Label;
use crate::domain::RepositoryError;
use crate::domain::TodoEntity;
use crate::domain::TodoWithLabelFromRow;
use crate::domain::UpdateTodo;
use crate::domain::merged_completed;
use crate::domain::merged_text;
use crate::domain::row_views;
use crate::domain::todo_views;
use crate::fold::fold_entities;
use crate::fold::fold_rows;

verus! {

/// What a storage call reports when it fails: either the requested row
/// does not exist, or something else went wrong, described by a message.
#[derive(Debug)]
pub enum StorageError {
    RowNotFound,
    Other(String),
}

/// Translates a storage failure into the repository taxonomy: a missing
/// row on a lookup keyed by `id` is `NotFound(id)`; everything else is
/// `Unexpected` carrying the underlying message.
pub fn classify_storage_error(e: StorageError, id: i32) -> (r: RepositoryError)
    ensures
        e is RowNotFound ==> r == RepositoryError::NotFound(id),
        e matches StorageError::Other(m) ==> r matches RepositoryError::Unexpected(m2) && m2@
            == m@,
{
    match e {
        StorageError::RowNotFound => RepositoryError::NotFound(id),
        StorageError::Other(m) => RepositoryError::Unexpected(m),
    }
}

/// The outcome of a `find` for `id`: the first folded entity of the join
/// rows the query returned, or `NotFound` when the query returned none.
pub fn find_todo_result(rows: Vec<TodoWithLabelFromRow>, id: i32) -> (r: Result<
    TodoEntity,
    RepositoryError,
>)
    ensures
        ({
            let folded = fold_rows(row_views(rows@));
            &&& folded.len() > 0 ==> (r matches Ok(t) && t@ == folded[0])
            &&& folded.len() == 0 ==> r == Err::<TodoEntity, RepositoryError>(
                RepositoryError::NotFound(id),
            )
        }),
{
    let ghost folded = fold_rows(row_views(rows@));
    let mut todos = fold_entities(rows);
    proof {
        assert(todos@.len() == folded.len());
    }
    if todos.len() > 0 {
        proof {
            assert(todo_views(todos@)[0] == todos@[0]@);
        }
        Ok(todos.remove(0))
    } else {
        Err(RepositoryError::NotFound(id))
    }
}

/// The row values a merge-patch update writes back: the payload's text
/// and completion where given, else the stored ones.
pub fn merge_update(payload: UpdateTodo, current: &TodoEntity) -> (r: (String, bool))
    ensures
        r.0@ == merged_text(current@.text, payload@),
        r.1 == merged_completed(current@.completed, payload@),
{
    let text = match payload.text {
        Some(t) => t,
        None => current.text.clone(),
    };
    let completed = match payload.completed {
        Some(c) => c,
        None => current.completed,
    };
    (text, completed)
}

/// The outcome of a statement that affected `rows_affected` rows while
/// deleting or updating the entity with `id`: affecting no row means the
/// entity was not there.
pub fn rows_affected_outcome(rows_affected: u64, id: i32) -> (r: Result<(), RepositoryError>)
    ensures
        rows_affected == 0 ==> r == Err::<(), RepositoryError>(RepositoryError::NotFound(id)),
        rows_affected > 0 ==> r == Ok::<(), RepositoryError>(()),
{
    if rows_affected == 0 {
        Err(RepositoryError::NotFound(id))
    } else {
        Ok(())
    }
}

/// The decision of a label creation after the duplicate probe: a label
/// already holding the name stops the creation as `Duplicate`.
pub fn label_create_outcome(existing: Option<Label>) -> (r: Result<(), RepositoryError>)
    ensures
        existing matches Some(l) ==> r == Err::<(), RepositoryError>(
            RepositoryError::Duplicate(l.id),
        ),
        existing is None ==> r == Ok::<(), RepositoryError>(()),
{
    match existing {
        Some(l) => Err(RepositoryError::Duplicate(l.id)),
        None => Ok(()),
    }
}

} // verus!
