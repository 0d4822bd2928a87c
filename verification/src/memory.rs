//! In-memory backends: map-like stores over owned vectors, for
//! deterministic tests of everything above the repository contract.
//!
//! Entries are kept in insertion order and looked up by id. `create`
//! assigns `id = stored count + 1`, as the contract of this backend
//! documents; after deletions such an id can coincide with a stored one,
//! and the entry is then replaced, never duplicated. Every read hands out
//! an independent copy; no entity is shared by reference.

use vstd::prelude::*;
use vstd::rwlock::RwLock;
use vstd::rwlock::RwLockPredicate;

use crate::domain::CreateTodo;
use crate::domain::Label;
use crate::domain::LabelModel;
use crate::domain::RepositoryError;
use crate::domain::TodoEntity;
use crate::domain::TodoModel;
use crate::domain::UpdateTodo;
use crate::domain::first_index;
use crate::domain::has_label;
use crate::domain::has_todo;
use crate::domain::label_views;
use crate::domain::lemma_first_index;
use crate::domain::lemma_lookup_push;
use crate::domain::lemma_lookup_remove;
use crate::domain::lemma_lookup_update;
use crate::domain::lemma_max_label_id;
use crate::domain::lemma_wf_push;
use crate::domain::lemma_wf_update;
use crate::domain::lookup;
use crate::domain::max_label_id;
use crate::domain::todo_views;
use crate::domain::todos_wf;
use crate::fold::index_of_todo;
use crate::repository::LabelRepository;
use crate::repository::TodoRepository;

verus! {

/// A label sequence is well formed when ids and names are both unique.
pub open spec fn labels_wf(labels: Seq<LabelModel>) -> bool {
    &&& forall|i: int, j: int|
        0 <= i < j < labels.len() ==> (#[trigger] labels[i]).id != (#[trigger] labels[j]).id
    &&& forall|i: int, j: int|
        0 <= i < j < labels.len() ==> (#[trigger] labels[i]).name != (#[trigger] labels[j]).name
}

/// The todo a fresh `create` returns, given the store's current todos:
/// id one past the stored count, the payload's text, not completed, and
/// no labels (this backend does not resolve label associations).
pub open spec fn created_todo(pre: Seq<TodoModel>, text: Seq<char>) -> TodoModel {
    TodoModel { id: pre.len() as int + 1, text, completed: false, labels: Seq::empty() }
}

/// The store's todos after `create`: the created todo replaces a stored
/// one under the same id, else it is appended.
pub open spec fn store_after_create(pre: Seq<TodoModel>, text: Seq<char>) -> Seq<TodoModel> {
    let t = created_todo(pre, text);
    if has_todo(pre, t.id) {
        pre.update(first_index(pre, t.id), t)
    } else {
        pre.push(t)
    }
}

/// The in-memory todo store: an owned vector of entities with unique ids,
/// in insertion order.
pub struct TodoRepositoryForMemory {
    store: Vec<TodoEntity>,
}

impl TodoRepositoryForMemory {
    /// A fresh, empty store.
    pub fn new() -> (r: Self)
        ensures
            r.inv(),
            r.todos() == Seq::<TodoModel>::empty(),
    {
        let r = TodoRepositoryForMemory { store: Vec::new() };
        proof {
            assert(r.todos() =~= Seq::<TodoModel>::empty());
        }
        r
    }

    /// How many todos the store holds.
    pub fn count(&self) -> (n: usize)
        ensures
            n == self.todos().len(),
    {
        proof {
            assert(self.todos().len() == self.store@.len());
        }
        self.store.len()
    }
}

impl TodoRepository for TodoRepositoryForMemory {
    closed spec fn todos(&self) -> Seq<TodoModel> {
        todo_views(self.store@)
    }

    closed spec fn inv(&self) -> bool {
        todos_wf(self.todos())
    }

    fn create(&mut self, payload: CreateTodo) -> (r: Result<TodoEntity, RepositoryError>)
        ensures
            r is Ok,
            r matches Ok(t) ==> t@ == created_todo(old(self).todos(), payload@.text)
                && final(self).todos() == store_after_create(old(self).todos(), payload@.text),
    {
        let ghost pre = self.todos();
        let ghost pm = payload@;
        proof {
            assert(self.store@.len() == pre.len());
        }
        let id: i32 = (self.store.len() + 1) as i32;
        let entity = TodoEntity {
            id,
            text: payload.text,
            completed: false,
            labels: Vec::new(),
        };
        let ghost tm = entity@;
        proof {
            assert(tm.labels =~= Seq::<LabelModel>::empty());
            assert(tm =~= TodoModel {
                id: pre.len() as int + 1,
                text: pm.text,
                completed: false,
                labels: Seq::empty(),
            });
        }
        let copy = entity.clone();
        match index_of_todo(&self.store, id) {
            Some(i) => {
                let ghost old_seq = self.store@;
                self.store.remove(i);
                self.store.insert(i, copy);
                proof {
                    assert(self.store@ =~= old_seq.update(i as int, self.store@[i as int]));
                    assert(self.store@[i as int]@ == tm);
                    assert(self.todos() =~= pre.update(i as int, tm));
                    lemma_first_index(pre, tm.id);
                    assert(pre[i as int].id == tm.id);
                    lemma_lookup_update(pre, tm);
                    lemma_wf_update(pre, i as int, tm);
                }
            },
            None => {
                self.store.push(copy);
                proof {
                    assert(self.todos() =~= pre.push(tm));
                    lemma_lookup_push(pre, tm);
                    lemma_wf_push(pre, tm);
                }
            },
        }
        Ok(entity)
    }

    fn find(&self, id: i32) -> (r: Result<TodoEntity, RepositoryError>)
        ensures
            r is Ok <==> has_todo(self.todos(), id as int),
            !has_todo(self.todos(), id as int) ==> r == Err::<TodoEntity, RepositoryError>(
                RepositoryError::NotFound(id),
            ),
    {
        match index_of_todo(&self.store, id) {
            Some(i) => {
                let t = self.store[i].clone();
                proof {
                    assert(self.todos()[i as int] == self.store@[i as int]@);
                }
                Ok(t)
            },
            None => Err(RepositoryError::NotFound(id)),
        }
    }

    fn all(&self) -> (r: Result<Vec<TodoEntity>, RepositoryError>)
        ensures
            r is Ok,
    {
        let copies = self.store.clone();
        proof {
            assert forall|i: int| 0 <= i < copies@.len() implies copies@[i]@
                == self.store@[i]@ by {
                assert(vstd::pervasive::cloned::<TodoEntity>(self.store@[i], copies@[i]));
            }
            assert(todo_views(copies@) =~= self.todos());
        }
        Ok(copies)
    }

    fn update(&mut self, id: i32, payload: UpdateTodo) -> (r: Result<TodoEntity, RepositoryError>)
        ensures
            r is Ok <==> has_todo(old(self).todos(), id as int),
            !has_todo(old(self).todos(), id as int) ==> r == Err::<TodoEntity, RepositoryError>(
                RepositoryError::NotFound(id),
            ) && final(self).todos() == old(self).todos(),
            r matches Ok(t) ==> {
                &&& t@.labels == Seq::<LabelModel>::empty()
                &&& final(self).todos() == old(self).todos().update(
                    first_index(old(self).todos(), id as int),
                    t@,
                )
                &&& lookup(final(self).todos(), id as int) == Some(t@)
            },
    {
        let ghost pre = self.todos();
        match index_of_todo(&self.store, id) {
            Some(i) => {
                let text = match payload.text {
                    Some(t) => t,
                    None => self.store[i].text.clone(),
                };
                let completed = match payload.completed {
                    Some(c) => c,
                    None => self.store[i].completed,
                };
                let entity = TodoEntity { id, text, completed, labels: Vec::new() };
                let ghost tm = entity@;
                proof {
                    assert(tm.labels =~= Seq::<LabelModel>::empty());
                    assert(pre[i as int] == self.store@[i as int]@);
                }
                let copy = entity.clone();
                let ghost old_seq = self.store@;
                self.store.remove(i);
                self.store.insert(i, copy);
                proof {
                    assert(self.store@ =~= old_seq.update(i as int, self.store@[i as int]));
                    assert(self.store@[i as int]@ == tm);
                    assert(self.todos() =~= pre.update(i as int, tm));
                    lemma_first_index(pre, tm.id);
                    assert(pre[i as int].id == tm.id);
                    lemma_lookup_update(pre, tm);
                    lemma_wf_update(pre, i as int, tm);
                }
                Ok(entity)
            },
            None => Err(RepositoryError::NotFound(id)),
        }
    }

    fn delete(&mut self, id: i32) -> (r: Result<(), RepositoryError>)
        ensures
            r is Ok <==> has_todo(old(self).todos(), id as int),
            !has_todo(old(self).todos(), id as int) ==> r == Err::<(), RepositoryError>(
                RepositoryError::NotFound(id),
            ) && final(self).todos() == old(self).todos(),
            has_todo(old(self).todos(), id as int) ==> final(self).todos() == old(
                self,
            ).todos().remove(first_index(old(self).todos(), id as int)),
    {
        let ghost pre = self.todos();
        match index_of_todo(&self.store, id) {
            Some(i) => {
                self.store.remove(i);
                proof {
                    assert(self.todos() =~= pre.remove(i as int));
                    lemma_lookup_remove(pre, id as int);
                    let rem = pre.remove(i as int);
                    assert forall|a: int, b: int|
                        0 <= a < b < rem.len() implies rem[a].id != rem[b].id by {
                        let ra: int = if a < i { a } else { a + 1 };
                        let rb: int = if b < i { b } else { b + 1 };
                        assert(rem[a] == pre[ra] && rem[b] == pre[rb]);
                    }
                    assert forall|a: int| 0 <= a < rem.len() implies crate::domain::todo_wf(
                        #[trigger] rem[a],
                    ) by {
                        let ra: int = if a < i { a } else { a + 1 };
                        assert(rem[a] == pre[ra]);
                    }
                    assert(todos_wf(self.todos()));
                }
                Ok(())
            },
            None => Err(RepositoryError::NotFound(id)),
        }
    }
}

/// The in-memory label store: an owned vector of labels with unique ids
/// and unique names, in insertion order.
pub struct LabelRepositoryForMemory {
    store: Vec<Label>,
}

impl LabelRepositoryForMemory {
    /// A fresh, empty store.
    pub fn new() -> (r: Self)
        ensures
            r.inv(),
            r.labels() == Seq::<LabelModel>::empty(),
    {
        let r = LabelRepositoryForMemory { store: Vec::new() };
        proof {
            assert(r.labels() =~= Seq::<LabelModel>::empty());
        }
        r
    }
}

/// Position of the first label with this name.
fn index_of_label_name(store: &Vec<Label>, name: &String) -> (r: Option<usize>)
    ensures
        match r {
            Some(i) => i < store@.len() && label_views(store@)[i as int].name == name@,
            None => forall|j: int|
                0 <= j < store@.len() ==> (#[trigger] label_views(store@)[j]).name != name@,
        },
{
    let ghost views = label_views(store@);
    let mut k: usize = 0;
    while k < store.len()
        invariant
            k <= store@.len(),
            views == label_views(store@),
            forall|j: int| 0 <= j < k ==> (#[trigger] views[j]).name != name@,
        decreases store@.len() - k,
    {
        if store[k].name.eq(name) {
            proof {
                assert(views[k as int].name == name@);
            }
            return Some(k);
        }
        k += 1;
    }
    None
}

/// Position of the first label with this id.
fn index_of_label_id(store: &Vec<Label>, id: i32) -> (r: Option<usize>)
    ensures
        match r {
            Some(i) => i < store@.len() && label_views(store@)[i as int].id == id as int,
            None => !has_label(label_views(store@), id as int),
        },
{
    let ghost views = label_views(store@);
    let mut k: usize = 0;
    while k < store.len()
        invariant
            k <= store@.len(),
            views == label_views(store@),
            forall|j: int| 0 <= j < k ==> (#[trigger] views[j]).id != id as int,
        decreases store@.len() - k,
    {
        if store[k].id == id {
            proof {
                assert(views[k as int].id == id as int);
            }
            return Some(k);
        }
        k += 1;
    }
    proof {
        assert forall|i: int| 0 <= i < views.len() implies views[i].id != id as int by {}
    }
    None
}

/// The largest stored label id, or 0 for an empty store.
fn max_stored_label_id(store: &Vec<Label>) -> (r: i32)
    ensures
        r as int == max_label_id(label_views(store@)),
        r >= 0,
{
    let ghost views = label_views(store@);
    let mut m: i32 = 0;
    let mut k: usize = 0;
    while k < store.len()
        invariant
            k <= store@.len(),
            views == label_views(store@),
            m >= 0,
            m as int == max_label_id(views.take(k as int)),
        decreases store@.len() - k,
    {
        proof {
            assert(views.take(k + 1).drop_last() =~= views.take(k as int));
            assert(views.take(k + 1).last() == views[k as int]);
        }
        if store[k].id > m {
            m = store[k].id;
        }
        k += 1;
    }
    proof {
        assert(views.take(store@.len() as int) =~= views);
    }
    m
}

impl LabelRepository for LabelRepositoryForMemory {
    closed spec fn labels(&self) -> Seq<LabelModel> {
        label_views(self.store@)
    }

    closed spec fn inv(&self) -> bool {
        labels_wf(self.labels())
    }

    fn create(&mut self, name: String) -> (r: Result<Label, RepositoryError>)
        ensures
            r is Ok <==> forall|i: int|
                0 <= i < old(self).labels().len() ==> (#[trigger] old(self).labels()[i]).name
                    != name@,
            r matches Ok(l) ==> l@.id == max_label_id(old(self).labels()) + 1,
            r is Err ==> final(self).labels() == old(self).labels(),
    {
        let ghost pre = self.labels();
        match index_of_label_name(&self.store, &name) {
            Some(i) => {
                let did = self.store[i].id;
                proof {
                    assert(pre[i as int].name == name@);
                }
                Err(RepositoryError::Duplicate(did))
            },
            None => {
                let m = max_stored_label_id(&self.store);
                proof {
                    lemma_max_label_id(pre);
                }
                let label = Label { id: m + 1, name };
                let ghost lm = label@;
                proof {
                    assert(!has_label(pre, lm.id));
                }
                let copy = label.clone();
                self.store.push(copy);
                proof {
                    assert(self.labels() =~= pre.push(lm));
                    assert forall|a: int, b: int|
                        0 <= a < b < self.labels().len() implies (#[trigger] self.labels()[a]).id
                        != (#[trigger] self.labels()[b]).id by {
                        if b < pre.len() {
                            assert(self.labels()[a] == pre[a] && self.labels()[b] == pre[b]);
                        } else {
                            assert(self.labels()[a] == pre[a]);
                        }
                    }
                    assert forall|a: int, b: int|
                        0 <= a < b < self.labels().len() implies (#[trigger] self.labels()[a]).name
                        != (#[trigger] self.labels()[b]).name by {
                        if b < pre.len() {
                            assert(self.labels()[a] == pre[a] && self.labels()[b] == pre[b]);
                        } else {
                            assert(self.labels()[a] == pre[a]);
                        }
                    }
                }
                Ok(label)
            },
        }
    }

    fn all(&self) -> (r: Result<Vec<Label>, RepositoryError>)
        ensures
            r is Ok,
    {
        let copies = self.store.clone();
        proof {
            assert forall|i: int| 0 <= i < copies@.len() implies copies@[i]@
                == self.store@[i]@ by {
                assert(vstd::pervasive::cloned::<Label>(self.store@[i], copies@[i]));
            }
            assert(label_views(copies@) =~= self.labels());
        }
        Ok(copies)
    }

    fn delete(&mut self, id: i32) -> (r: Result<(), RepositoryError>)
        ensures
            r is Ok <==> has_label(old(self).labels(), id as int),
            !has_label(old(self).labels(), id as int) ==> r == Err::<(), RepositoryError>(
                RepositoryError::NotFound(id),
            ) && final(self).labels() == old(self).labels(),
            has_label(old(self).labels(), id as int) ==> exists|i: int|
                0 <= i < old(self).labels().len() && (#[trigger] old(self).labels()[i]).id == id
                    as int && final(self).labels() == old(self).labels().remove(i),
    {
        let ghost pre = self.labels();
        match index_of_label_id(&self.store, id) {
            Some(i) => {
                self.store.remove(i);
                proof {
                    assert(self.labels() =~= pre.remove(i as int));
                    let rem = pre.remove(i as int);
                    assert forall|a: int| 0 <= a < rem.len() implies (#[trigger] rem[a]).id != id
                        as int by {
                        if a < i {
                            assert(rem[a] == pre[a]);
                            assert(pre[a].id != pre[i as int].id);
                        } else {
                            assert(rem[a] == pre[a + 1]);
                            assert(pre[a + 1].id != pre[i as int].id);
                        }
                    }
                    assert(!has_label(self.labels(), id as int));
                    assert forall|a: int, b: int|
                        0 <= a < b < rem.len() implies (#[trigger] rem[a]).id != (
                        #[trigger] rem[b]).id && rem[a].name != rem[b].name by {
                        let ra: int = if a < i { a } else { a + 1 };
                        let rb: int = if b < i { b } else { b + 1 };
                        assert(rem[a] == pre[ra] && rem[b] == pre[rb]);
                    }
                }
                Ok(())
            },
            None => Err(RepositoryError::NotFound(id)),
        }
    }
}

/// Round trip law: the store `create` leaves behind holds the created
/// todo under the created id, so a `find` of that id — whose contract
/// returns exactly what the store holds under the id — returns the entity
/// `create` returned.
pub proof fn lemma_create_find_round_trip(pre: Seq<TodoModel>, text: Seq<char>)
    ensures
        lookup(store_after_create(pre, text), created_todo(pre, text).id) == Some(
            created_todo(pre, text),
        ),
{
    let t = created_todo(pre, text);
    if has_todo(pre, t.id) {
        lemma_lookup_update(pre, t);
    } else {
        lemma_lookup_push(pre, t);
    }
}

/// Not-found stability law: an id no todo carries stays absent across an
/// unrelated `create`, so `delete` — whose contract reports `NotFound`
/// exactly for absent ids — reports it before and after such a mutation.
pub proof fn lemma_absent_id_stays_absent(pre: Seq<TodoModel>, text: Seq<char>, id: int)
    requires
        !has_todo(pre, id),
        id != created_todo(pre, text).id,
    ensures
        !has_todo(store_after_create(pre, text), id),
{
    let t = created_todo(pre, text);
    if has_todo(pre, t.id) {
        lemma_lookup_update(pre, t);
    } else {
        lemma_lookup_push(pre, t);
    }
    assert(lookup(store_after_create(pre, text), id) == lookup(pre, id));
}

/// The store's todos after a run of `create` calls on a fresh store.
pub open spec fn store_after_creates(texts: Seq<Seq<char>>) -> Seq<TodoModel>
    decreases texts.len(),
{
    if texts.len() == 0 {
        Seq::empty()
    } else {
        store_after_create(store_after_creates(texts.drop_last()), texts.last())
    }
}

/// Serialized-create law: N `create` calls against a fresh in-memory
/// store — the store's writer lock serializes them — produce N todos
/// carrying the distinct ids 1..=N, each keeping its own text: none of
/// the N writes is lost.
pub proof fn lemma_fresh_creates_distinct_ids(texts: Seq<Seq<char>>)
    ensures
        store_after_creates(texts).len() == texts.len(),
        forall|i: int|
            0 <= i < texts.len() ==> (#[trigger] store_after_creates(texts)[i]).id == i + 1,
        forall|i: int|
            0 <= i < texts.len() ==> (#[trigger] store_after_creates(texts)[i]).text == texts[i],
        forall|i: int, j: int|
            0 <= i < j < texts.len() ==> store_after_creates(texts)[i].id != store_after_creates(
                texts,
            )[j].id,
    decreases texts.len(),
{
    if texts.len() == 0 {
    } else {
        let init = texts.drop_last();
        lemma_fresh_creates_distinct_ids(init);
        let pre = store_after_creates(init);
        let t = created_todo(pre, texts.last());
        assert(!has_todo(pre, t.id)) by {
            if has_todo(pre, t.id) {
                let w = choose|w: int| 0 <= w < pre.len() && pre[w].id == t.id;
                assert(pre[w].id == w + 1);
            }
        }
        assert(store_after_creates(texts) == pre.push(t));
        assert forall|i: int|
            0 <= i < texts.len() implies (#[trigger] store_after_creates(texts)[i]).id == i + 1
            && store_after_creates(texts)[i].text == texts[i] by {
            if i < init.len() {
                assert(store_after_creates(texts)[i] == pre[i]);
                assert(init[i] == texts[i]);
            } else {
                assert(store_after_creates(texts)[i] == t);
            }
        }
    }
}

/// The lock invariant of the shared store: the backend's own invariant.
pub struct StoreInv;

impl RwLockPredicate<TodoRepositoryForMemory> for StoreInv {
    open spec fn inv(self, v: TodoRepositoryForMemory) -> bool {
        v.inv()
    }
}

/// The in-memory store as concurrent callers share it: one store behind a
/// reader/writer lock whose invariant is the store's own. Reads run under
/// a read handle and return independent copies; writes hold the lock only
/// for the map operation itself, never for I/O, so the histories the lock
/// serializes are exactly those the backend's contracts describe.
pub struct SharedTodoRepository {
    store: RwLock<TodoRepositoryForMemory, StoreInv>,
}

impl SharedTodoRepository {
    #[verifier::type_invariant]
    spec fn guarded(&self) -> bool {
        self.store.pred() == StoreInv
    }

    /// A fresh shared store around an empty backend.
    pub fn new() -> Self {
        SharedTodoRepository { store: RwLock::new(TodoRepositoryForMemory::new(), Ghost(StoreInv)) }
    }

    /// Persists a new, not yet completed todo with the payload's text,
    /// under a positive id; refuses only a store already holding as many
    /// todos as ids fit in `i32`.
    pub fn create(&self, payload: CreateTodo) -> (r: Result<TodoEntity, RepositoryError>)
        ensures
            r matches Ok(t) ==> t@.completed == false && t@.text == payload@.text && t@.labels
                == Seq::<LabelModel>::empty() && t@.id >= 1,
    {
        proof {
            use_type_invariant(self);
        }
        let (mut repo, handle) = self.store.acquire_write();
        let n = repo.count();
        if n >= 0x7fff_ffff {
            handle.release_write(repo);
            return Err(RepositoryError::Unexpected("store is full".to_owned()));
        }
        let out = repo.create(payload);
        handle.release_write(repo);
        out
    }

    /// Returns the stored todo with this id, or `NotFound`.
    pub fn find(&self, id: i32) -> (r: Result<TodoEntity, RepositoryError>)
        ensures
            r matches Ok(t) ==> t@.id == id as int,
            r matches Err(e) ==> e == RepositoryError::NotFound(id),
    {
        proof {
            use_type_invariant(self);
        }
        let read_handle = self.store.acquire_read();
        let repo = read_handle.borrow();
        let out = repo.find(id);
        proof {
            if out is Ok {
                lemma_first_index(repo.todos(), id as int);
            }
        }
        read_handle.release_read();
        out
    }

    /// Returns every stored todo; any listing is well formed: no todo id
    /// and, inside one todo, no label id repeats.
    pub fn all(&self) -> (r: Result<Vec<TodoEntity>, RepositoryError>)
        ensures
            r is Ok,
            r matches Ok(ts) ==> todos_wf(todo_views(ts@)),
    {
        proof {
            use_type_invariant(self);
        }
        let read_handle = self.store.acquire_read();
        let repo = read_handle.borrow();
        let out = repo.all();
        read_handle.release_read();
        out
    }

    /// Merge-patches the stored todo with this id, or reports `NotFound`.
    pub fn update(&self, id: i32, payload: UpdateTodo) -> (r: Result<TodoEntity, RepositoryError>)
        ensures
            r matches Ok(t) ==> t@.id == id as int && t@.labels == Seq::<LabelModel>::empty(),
            r matches Err(e) ==> e == RepositoryError::NotFound(id),
    {
        proof {
            use_type_invariant(self);
        }
        let (mut repo, handle) = self.store.acquire_write();
        let out = repo.update(id, payload);
        handle.release_write(repo);
        out
    }

    /// Removes the stored todo with this id, or reports `NotFound`.
    pub fn delete(&self, id: i32) -> (r: Result<(), RepositoryError>)
        ensures
            r matches Err(e) ==> e == RepositoryError::NotFound(id),
    {
        proof {
            use_type_invariant(self);
        }
        let (mut repo, handle) = self.store.acquire_write();
        let out = repo.delete(id);
        handle.release_write(repo);
        out
    }
}

} // verus!
