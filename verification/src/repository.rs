//! The repository contract: the capability set every backend must satisfy,
//! stated once over the backends' mathematical store models.
//!
//! A backend exposes its stored todos (or labels) as a sequence of models,
//! in the backend's own order; callers must not depend on one order across
//! backends. The contracts pin down what each operation returns and how it
//! changes the store, looking entries up by id; clauses about errors are
//! conditional, since a storage-backed implementation may fail for reasons
//! of its own (and then reports `Unexpected`).

use vstd::prelude::*;

use crate::domain::CreateTodo;
use crate::domain::Label;
use crate::domain::LabelModel;
use crate::domain::RepositoryError;
use crate::domain::TodoEntity;
use crate::domain::TodoModel;
use crate::domain::UpdateTodo;
use crate::domain::has_todo;
use crate::domain::label_views;
use crate::domain::lookup;
use crate::domain::merged_completed;
use crate::domain::merged_text;
use crate::domain::todo_views;

verus! {

/// The todo store contract.
///
/// `create` persists a new todo built from the payload and returns it
/// fully resolved; `find` and `all` read; `update` merge-patches text and
/// completion; `delete` removes. `find`, `update` and `delete` report
/// `NotFound` only when the id is really absent, and whenever an
/// operation succeeds the store afterwards agrees with its result.
pub trait TodoRepository: Sized {
    /// The stored todos, in the backend's own order.
    spec fn todos(&self) -> Seq<TodoModel>;

    /// The backend's internal invariant.
    spec fn inv(&self) -> bool;

    /// Persists a new, not yet completed todo with the payload's text and
    /// returns it as stored.
    fn create(&mut self, payload: CreateTodo) -> (r: Result<TodoEntity, RepositoryError>)
        requires
            old(self).inv(),
            old(self).todos().len() + 1 < 0x8000_0000,
        ensures
            final(self).inv(),
            r matches Ok(t) ==> {
                &&& t@.text == payload@.text
                &&& t@.completed == false
                &&& lookup(final(self).todos(), t@.id) == Some(t@)
                &&& forall|i: int|
                    i != t@.id ==> lookup(final(self).todos(), i) == lookup(
                        old(self).todos(),
                        i,
                    )
            },
    ;

    /// Returns the stored todo with this id.
    fn find(&self, id: i32) -> (r: Result<TodoEntity, RepositoryError>)
        requires
            self.inv(),
        ensures
            r matches Ok(t) ==> lookup(self.todos(), id as int) == Some(t@),
            r matches Err(e) ==> (e matches RepositoryError::NotFound(nid) ==> nid == id
                && !has_todo(self.todos(), id as int)),
    ;

    /// Returns every stored todo, in the backend's own order.
    fn all(&self) -> (r: Result<Vec<TodoEntity>, RepositoryError>)
        requires
            self.inv(),
        ensures
            r matches Ok(ts) ==> todo_views(ts@) == self.todos(),
    ;

    /// Merge-patches the stored todo with this id: fields the payload
    /// leaves unset keep their stored value. Returns the updated todo.
    fn update(&mut self, id: i32, payload: UpdateTodo) -> (r: Result<
        TodoEntity,
        RepositoryError,
    >)
        requires
            old(self).inv(),
        ensures
            final(self).inv(),
            r matches Ok(t) ==> {
                &&& has_todo(old(self).todos(), id as int)
                &&& {
                    let cur = lookup(old(self).todos(), id as int)->Some_0;
                    &&& t@.id == id as int
                    &&& t@.text == merged_text(cur.text, payload@)
                    &&& t@.completed == merged_completed(cur.completed, payload@)
                }
                &&& forall|i: int|
                    i != id as int ==> lookup(final(self).todos(), i) == lookup(
                        old(self).todos(),
                        i,
                    )
            },
            r matches Err(e) ==> (e matches RepositoryError::NotFound(nid) ==> nid == id
                && !has_todo(old(self).todos(), id as int)),
    ;

    /// Removes the stored todo with this id.
    fn delete(&mut self, id: i32) -> (r: Result<(), RepositoryError>)
        requires
            old(self).inv(),
        ensures
            final(self).inv(),
            r matches Ok(u) ==> {
                &&& has_todo(old(self).todos(), id as int)
                &&& lookup(final(self).todos(), id as int) == None::<TodoModel>
                &&& forall|i: int|
                    i != id as int ==> lookup(final(self).todos(), i) == lookup(
                        old(self).todos(),
                        i,
                    )
            },
            r matches Err(e) ==> (e matches RepositoryError::NotFound(nid) ==> nid == id
                && !has_todo(old(self).todos(), id as int)),
    ;
}

/// The label store contract: labels are created by name (names are unique
/// within a store), listed, and deleted by id.
pub trait LabelRepository: Sized {
    /// The stored labels, in the backend's own order.
    spec fn labels(&self) -> Seq<LabelModel>;

    /// The backend's internal invariant.
    spec fn inv(&self) -> bool;

    /// Persists a new label under a name not yet taken, or reports the
    /// label already holding the name as `Duplicate`.
    fn create(&mut self, name: String) -> (r: Result<Label, RepositoryError>)
        requires
            old(self).inv(),
            crate::domain::max_label_id(old(self).labels()) < 0x7fff_ffff,
        ensures
            final(self).inv(),
            r matches Ok(l) ==> {
                &&& l@.name == name@
                &&& !crate::domain::has_label(old(self).labels(), l@.id)
                &&& forall|i: int|
                    0 <= i < old(self).labels().len() ==> (#[trigger] old(
                        self,
                    ).labels()[i]).name != name@
                &&& final(self).labels() == old(self).labels().push(l@)
            },
            r matches Err(e) ==> (e matches RepositoryError::Duplicate(did) ==> exists|i: int|
                0 <= i < old(self).labels().len() && (#[trigger] old(self).labels()[i]).name
                    == name@ && old(self).labels()[i].id == did),
    ;

    /// Returns every stored label, in the backend's own order.
    fn all(&self) -> (r: Result<Vec<Label>, RepositoryError>)
        requires
            self.inv(),
        ensures
            r matches Ok(ls) ==> label_views(ls@) == self.labels(),
    ;

    /// Removes the stored label with this id.
    fn delete(&mut self, id: i32) -> (r: Result<(), RepositoryError>)
        requires
            old(self).inv(),
        ensures
            final(self).inv(),
            r matches Ok(u) ==> {
                &&& crate::domain::has_label(old(self).labels(), id as int)
                &&& !crate::domain::has_label(final(self).labels(), id as int)
            },
            r matches Err(e) ==> (e matches RepositoryError::NotFound(nid) ==> nid == id
                && !crate::domain::has_label(old(self).labels(), id as int)),
    ;
}

} // verus!
