//! Domain entities of the todo/label store and their mathematical models.
//!
//! Every executable type has a `View` onto a model struct whose fields are
//! mathematical (`int`, `Seq<char>`, `Seq` of models); all contracts in the
//! crate are stated over these models.

use vstd::prelude::*;
use vstd::std_specs::cmp::PartialEqSpec;

verus! {

/// Mathematical model of a label: an id and a name.
#[verifier::ext_equal]
pub struct LabelModel {
    pub id: int,
    pub name: Seq<char>,
}

/// A label attached to todos. `name` is unique within a label store.
#[derive(Debug)]
pub struct Label {
    pub id: i32,
    pub name: String,
}

impl View for Label {
    type V = LabelModel;

    open spec fn view(&self) -> LabelModel {
        LabelModel { id: self.id as int, name: self.name@ }
    }
}

impl Clone for Label {
    fn clone(&self) -> (r: Self)
        ensures
            r == *self,
    {
        Label { id: self.id, name: self.name.clone() }
    }
}

impl PartialEq for Label {
    fn eq(&self, other: &Self) -> (r: bool)
        ensures
            r == (self@ == other@),
    {
        self.id == other.id && self.name == other.name
    }
}

impl vstd::std_specs::cmp::PartialEqSpecImpl for Label {
    open spec fn obeys_eq_spec() -> bool {
        true
    }

    open spec fn eq_spec(&self, other: &Self) -> bool {
        self@ == other@
    }
}

impl Eq for Label {}

/// Mathematical model of a fully resolved todo entity.
#[verifier::ext_equal]
pub struct TodoModel {
    pub id: int,
    pub text: Seq<char>,
    pub completed: bool,
    pub labels: Seq<LabelModel>,
}

/// A todo with its resolved label associations.
#[derive(Debug)]
pub struct TodoEntity {
    pub id: i32,
    pub text: String,
    pub completed: bool,
    pub labels: Vec<Label>,
}

impl View for TodoEntity {
    type V = TodoModel;

    open spec fn view(&self) -> TodoModel {
        TodoModel {
            id: self.id as int,
            text: self.text@,
            completed: self.completed,
            labels: self.labels@.map_values(|l: Label| l@),
        }
    }
}

impl Clone for TodoEntity {
    fn clone(&self) -> (r: Self)
        ensures
            r@ == self@,
    {
        let r = TodoEntity {
            id: self.id,
            text: self.text.clone(),
            completed: self.completed,
            labels: self.labels.clone(),
        };
        proof {
            assert forall|i: int| 0 <= i < self.labels@.len() implies r.labels@[i] == self.labels@[i] by {
            }
            assert(r.labels@ =~= self.labels@);
            assert(r@ =~= self@);
        }
        r
    }
}

impl PartialEq for TodoEntity {
    fn eq(&self, other: &Self) -> (r: bool)
        ensures
            r == (self@ == other@),
    {
        let ids = self.id == other.id;
        let texts = self.text == other.text;
        let comps = self.completed == other.completed;
        let labs = self.labels == other.labels;
        let r = ids && texts && comps && labs;
        proof {
            let sv = self@;
            let ov = other@;
            if r {
                assert(sv.labels.len() == ov.labels.len());
                assert forall|i: int| 0 <= i < sv.labels.len() implies sv.labels[i] == ov.labels[i] by {
                    assert(self.labels[i].eq_spec(&other.labels[i]));
                    assert(self.labels@[i]@ == other.labels@[i]@);
                }
                assert(sv.labels =~= ov.labels);
                assert(sv =~= ov);
            } else if sv == ov {
                assert(self.id == other.id);
                assert(self.text@ == other.text@);
                assert(sv.labels == ov.labels);
                assert(sv.labels.len() == self.labels@.len());
                assert(ov.labels.len() == other.labels@.len());
                assert(self.labels@.len() == other.labels@.len());
                assert forall|i: int| 0 <= i < self.labels@.len() implies self.labels[i].eq_spec(
                    &other.labels[i],
                ) by {
                    assert(sv.labels[i] == ov.labels[i]);
                    assert(self.labels@[i]@ == other.labels@[i]@);
                }
                assert(labs);
                assert(false);
            }
        }
        r
    }
}

impl vstd::std_specs::cmp::PartialEqSpecImpl for TodoEntity {
    open spec fn obeys_eq_spec() -> bool {
        true
    }

    open spec fn eq_spec(&self, other: &Self) -> bool {
        self@ == other@
    }
}

impl Eq for TodoEntity {}

/// Mathematical model of one left-outer-join row: todo-level fields plus at
/// most one associated label. A row whose `label_id` is null carries no
/// label; a present `label_id` with a null name is read as the empty name.
#[verifier::ext_equal]
pub struct RowModel {
    pub id: int,
    pub text: Seq<char>,
    pub completed: bool,
    pub label: Option<LabelModel>,
}

/// One flat row of the left-outer-join between todos and labels.
#[derive(Debug)]
pub struct TodoWithLabelFromRow {
    pub id: i32,
    pub text: String,
    pub completed: bool,
    pub label_id: Option<i32>,
    pub label_name: Option<String>,
}

impl View for TodoWithLabelFromRow {
    type V = RowModel;

    open spec fn view(&self) -> RowModel {
        RowModel {
            id: self.id as int,
            text: self.text@,
            completed: self.completed,
            label: match self.label_id {
                Some(lid) => Some(
                    LabelModel {
                        id: lid as int,
                        name: match self.label_name {
                            Some(n) => n@,
                            None => Seq::empty(),
                        },
                    },
                ),
                None => None,
            },
        }
    }
}

impl Clone for TodoWithLabelFromRow {
    fn clone(&self) -> (r: Self)
        ensures
            r@ == self@,
    {
        TodoWithLabelFromRow {
            id: self.id,
            text: self.text.clone(),
            completed: self.completed,
            label_id: match self.label_id {
                Some(lid) => Some(lid),
                None => None,
            },
            label_name: match &self.label_name {
                Some(n) => Some(n.clone()),
                None => None,
            },
        }
    }
}

/// Model of a request to create a todo.
#[verifier::ext_equal]
pub struct CreateTodoModel {
    pub text: Seq<char>,
    pub labels: Seq<int>,
}

/// Input of `create`: the text of the new todo and the ids of the labels to
/// associate with it. Label ids must reference existing labels; only a
/// relational backend naturally enforces this.
#[derive(Debug)]
pub struct CreateTodo {
    pub text: String,
    pub labels: Vec<i32>,
}

impl View for CreateTodo {
    type V = CreateTodoModel;

    open spec fn view(&self) -> CreateTodoModel {
        CreateTodoModel { text: self.text@, labels: self.labels@.map_values(|i: i32| i as int) }
    }
}

impl CreateTodo {
    pub fn new(text: String, labels: Vec<i32>) -> (r: Self)
        ensures
            r@.text == text@,
            r@.labels == labels@.map_values(|i: i32| i as int),
    {
        CreateTodo { text, labels }
    }
}

/// Model of a merge-patch update request.
#[verifier::ext_equal]
pub struct UpdateTodoModel {
    pub text: Option<Seq<char>>,
    pub completed: Option<bool>,
}

/// Input of `update`: fields left unset keep the stored value
/// (merge-patch semantics).
#[derive(Debug)]
pub struct UpdateTodo {
    pub text: Option<String>,
    pub completed: Option<bool>,
}

impl View for UpdateTodo {
    type V = UpdateTodoModel;

    open spec fn view(&self) -> UpdateTodoModel {
        UpdateTodoModel {
            text: match self.text {
                Some(t) => Some(t@),
                None => None,
            },
            completed: self.completed,
        }
    }
}

/// An update request for a label. The observed repository contract has no
/// label update operation; the type only names the wire shape.
#[derive(Debug)]
pub struct UpdateLabel {
    pub id: i32,
    pub name: String,
}

/// Mathematical model of a repository error.
#[verifier::ext_equal]
pub enum ErrorModel {
    NotFound(int),
    Duplicate(int),
    Unexpected(Seq<char>),
}

/// The error taxonomy every backend maps its storage failures into.
#[derive(Debug)]
pub enum RepositoryError {
    /// The entity with this id does not exist.
    NotFound(i32),
    /// Creation collided with an existing unique entity; carries the id of
    /// the entity already present.
    Duplicate(i32),
    /// Any storage failure not otherwise classified, carrying the
    /// underlying message.
    Unexpected(String),
}

impl View for RepositoryError {
    type V = ErrorModel;

    open spec fn view(&self) -> ErrorModel {
        match self {
            RepositoryError::NotFound(id) => ErrorModel::NotFound(*id as int),
            RepositoryError::Duplicate(id) => ErrorModel::Duplicate(*id as int),
            RepositoryError::Unexpected(m) => ErrorModel::Unexpected(m@),
        }
    }
}

impl Clone for RepositoryError {
    fn clone(&self) -> (r: Self)
        ensures
            r == *self,
    {
        match self {
            RepositoryError::NotFound(id) => RepositoryError::NotFound(*id),
            RepositoryError::Duplicate(id) => RepositoryError::Duplicate(*id),
            RepositoryError::Unexpected(m) => RepositoryError::Unexpected(m.clone()),
        }
    }
}

impl PartialEq for RepositoryError {
    fn eq(&self, other: &Self) -> (r: bool)
        ensures
            r == (self@ == other@),
    {
        match (self, other) {
            (RepositoryError::NotFound(a), RepositoryError::NotFound(b)) => a == b,
            (RepositoryError::Duplicate(a), RepositoryError::Duplicate(b)) => a == b,
            (RepositoryError::Unexpected(a), RepositoryError::Unexpected(b)) => *a == *b,
            _ => false,
        }
    }
}

impl vstd::std_specs::cmp::PartialEqSpecImpl for RepositoryError {
    open spec fn obeys_eq_spec() -> bool {
        true
    }

    open spec fn eq_spec(&self, other: &Self) -> bool {
        self@ == other@
    }
}

impl Eq for RepositoryError {}

/// The models of a sequence of rows.
pub open spec fn row_views(rows: Seq<TodoWithLabelFromRow>) -> Seq<RowModel> {
    rows.map_values(|r: TodoWithLabelFromRow| r@)
}

/// The models of a sequence of todo entities.
pub open spec fn todo_views(todos: Seq<TodoEntity>) -> Seq<TodoModel> {
    todos.map_values(|t: TodoEntity| t@)
}

/// The models of a sequence of labels.
pub open spec fn label_views(labels: Seq<Label>) -> Seq<LabelModel> {
    labels.map_values(|l: Label| l@)
}

/// Whether some todo in the sequence carries this id.
pub open spec fn has_todo(todos: Seq<TodoModel>, id: int) -> bool {
    exists|i: int| 0 <= i < todos.len() && todos[i].id == id
}

/// The first position whose todo carries this id (meaningful only when
/// `has_todo` holds).
pub open spec fn first_index(todos: Seq<TodoModel>, id: int) -> int
    decreases todos.len(),
{
    if todos.len() == 0 {
        0
    } else if todos[0].id == id {
        0
    } else {
        1 + first_index(todos.skip(1), id)
    }
}

/// The first todo carrying this id, if any.
pub open spec fn lookup(todos: Seq<TodoModel>, id: int) -> Option<TodoModel> {
    if has_todo(todos, id) {
        Some(todos[first_index(todos, id)])
    } else {
        None
    }
}

/// Whether some label in the sequence carries this id.
pub open spec fn has_label(labels: Seq<LabelModel>, id: int) -> bool {
    exists|i: int| 0 <= i < labels.len() && labels[i].id == id
}

/// The largest label id in the sequence, or 0 when there is none.
pub open spec fn max_label_id(labels: Seq<LabelModel>) -> int
    decreases labels.len(),
{
    if labels.len() == 0 {
        0
    } else {
        let m = max_label_id(labels.drop_last());
        if labels.last().id > m {
            labels.last().id
        } else {
            m
        }
    }
}

/// `max_label_id` bounds every id in the sequence and is at least 0.
pub proof fn lemma_max_label_id(labels: Seq<LabelModel>)
    ensures
        max_label_id(labels) >= 0,
        forall|i: int| 0 <= i < labels.len() ==> (#[trigger] labels[i]).id <= max_label_id(labels),
    decreases labels.len(),
{
    if labels.len() > 0 {
        lemma_max_label_id(labels.drop_last());
        assert forall|i: int| 0 <= i < labels.len() implies (#[trigger] labels[i]).id
            <= max_label_id(labels) by {
            if i < labels.len() - 1 {
                assert(labels[i] == labels.drop_last()[i]);
            }
        }
    }
}

/// A todo is well formed when its label list repeats no label id.
pub open spec fn todo_wf(t: TodoModel) -> bool {
    forall|i: int, j: int| 0 <= i < j < t.labels.len() ==> t.labels[i].id != t.labels[j].id
}

/// A todo sequence is well formed when todo ids are unique and every todo
/// is well formed.
pub open spec fn todos_wf(todos: Seq<TodoModel>) -> bool {
    &&& forall|i: int, j: int|
        0 <= i < j < todos.len() ==> todos[i].id != todos[j].id
    &&& forall|i: int| 0 <= i < todos.len() ==> todo_wf(#[trigger] todos[i])
}

/// `first_index` indeed points at the first occurrence of `id`.
pub proof fn lemma_first_index(todos: Seq<TodoModel>, id: int)
    requires
        has_todo(todos, id),
    ensures
        0 <= first_index(todos, id) < todos.len(),
        todos[first_index(todos, id)].id == id,
        forall|j: int| 0 <= j < first_index(todos, id) ==> todos[j].id != id,
    decreases todos.len(),
{
    if todos[0].id == id {
    } else {
        let rest = todos.skip(1);
        assert(has_todo(rest, id)) by {
            let i = choose|i: int| 0 <= i < todos.len() && todos[i].id == id;
            assert(rest[i - 1].id == id);
        }
        lemma_first_index(rest, id);
        let fi = first_index(todos, id);
        assert(todos[fi] == rest[fi - 1]);
        assert forall|j: int| 0 <= j < fi implies todos[j].id != id by {
            if j > 0 {
                assert(todos[j] == rest[j - 1]);
            }
        }
    }
}

/// The text after a merge-patch update: the new text when one is given,
/// else the stored one.
pub open spec fn merged_text(cur: Seq<char>, p: UpdateTodoModel) -> Seq<char> {
    match p.text {
        Some(t) => t,
        None => cur,
    }
}

/// The completion flag after a merge-patch update.
pub open spec fn merged_completed(cur: bool, p: UpdateTodoModel) -> bool {
    match p.completed {
        Some(c) => c,
        None => cur,
    }
}

/// A position that carries `id`, before which no position carries `id`,
/// is `first_index`.
pub proof fn lemma_first_index_unique(todos: Seq<TodoModel>, id: int, i: int)
    requires
        0 <= i < todos.len(),
        todos[i].id == id,
        forall|j: int| 0 <= j < i ==> todos[j].id != id,
    ensures
        has_todo(todos, id),
        first_index(todos, id) == i,
{
    assert(has_todo(todos, id));
    lemma_first_index(todos, id);
    let fi = first_index(todos, id);
    if fi < i {
        assert(todos[fi].id != id);
    } else if fi > i {
        assert(todos[i].id != id);
    }
}

/// Replacing a todo by a well-formed one with the same id preserves
/// well-formedness of the sequence.
pub proof fn lemma_wf_update(todos: Seq<TodoModel>, i: int, t: TodoModel)
    requires
        todos_wf(todos),
        0 <= i < todos.len(),
        t.id == todos[i].id,
        todo_wf(t),
    ensures
        todos_wf(todos.update(i, t)),
{
    let upd = todos.update(i, t);
    assert forall|a: int, b: int| 0 <= a < b < upd.len() implies upd[a].id != upd[b].id by {
        assert(todos[a].id != todos[b].id);
    }
    assert forall|a: int| 0 <= a < upd.len() implies todo_wf(#[trigger] upd[a]) by {
        if a != i {
            assert(upd[a] == todos[a]);
        }
    }
}

/// Appending a well-formed todo with a fresh id preserves well-formedness
/// of the sequence.
pub proof fn lemma_wf_push(todos: Seq<TodoModel>, t: TodoModel)
    requires
        todos_wf(todos),
        !has_todo(todos, t.id),
        todo_wf(t),
    ensures
        todos_wf(todos.push(t)),
{
    let p = todos.push(t);
    assert forall|a: int, b: int| 0 <= a < b < p.len() implies p[a].id != p[b].id by {
        if b < todos.len() {
            assert(p[a] == todos[a] && p[b] == todos[b]);
        } else {
            assert(p[a] == todos[a]);
        }
    }
    assert forall|a: int| 0 <= a < p.len() implies todo_wf(#[trigger] p[a]) by {
        if a < todos.len() {
            assert(p[a] == todos[a]);
        }
    }
}

/// Replacing the first todo that carries `id` by another todo with the
/// same id changes only what `lookup` returns at `id`.
pub proof fn lemma_lookup_update(todos: Seq<TodoModel>, t: TodoModel)
    requires
        has_todo(todos, t.id),
    ensures
        lookup(todos.update(first_index(todos, t.id), t), t.id) == Some(t),
        forall|i: int|
            i != t.id ==> lookup(
                todos.update(first_index(todos, t.id), t),
                i,
            ) == lookup(todos, i),
{
    lemma_first_index(todos, t.id);
    let fi = first_index(todos, t.id);
    let upd = todos.update(fi, t);
    lemma_first_index_unique(upd, t.id, fi);
    assert forall|i: int| i != t.id implies lookup(upd, i) == lookup(todos, i) by {
        if has_todo(todos, i) {
            lemma_first_index(todos, i);
            let gi = first_index(todos, i);
            assert(gi != fi);
            assert(upd[gi] == todos[gi]);
            lemma_first_index_unique(upd, i, gi);
        } else {
            if has_todo(upd, i) {
                let w = choose|w: int| 0 <= w < upd.len() && upd[w].id == i;
                assert(todos[w].id == i);
            }
        }
    }
}

/// Appending a todo whose id is absent makes `lookup` return it at its id
/// and leaves every other id unchanged.
pub proof fn lemma_lookup_push(todos: Seq<TodoModel>, t: TodoModel)
    requires
        !has_todo(todos, t.id),
    ensures
        lookup(todos.push(t), t.id) == Some(t),
        forall|i: int| i != t.id ==> lookup(todos.push(t), i) == lookup(todos, i),
{
    let p = todos.push(t);
    assert(p[todos.len() as int] == t);
    assert forall|j: int| 0 <= j < todos.len() implies p[j].id != t.id by {
        assert(p[j] == todos[j]);
    }
    lemma_first_index_unique(p, t.id, todos.len() as int);
    assert forall|i: int| i != t.id implies lookup(p, i) == lookup(todos, i) by {
        if has_todo(todos, i) {
            lemma_first_index(todos, i);
            let gi = first_index(todos, i);
            assert(p[gi] == todos[gi]);
            lemma_first_index_unique(p, i, gi);
        } else {
            if has_todo(p, i) {
                let w = choose|w: int| 0 <= w < p.len() && p[w].id == i;
                assert(w == todos.len());
            }
        }
    }
}

/// Removing the first todo that carries `id`, when ids are unique, makes
/// `lookup` return nothing at `id` and leaves every other id unchanged.
pub proof fn lemma_lookup_remove(todos: Seq<TodoModel>, id: int)
    requires
        has_todo(todos, id),
        forall|i: int, j: int| 0 <= i < j < todos.len() ==> todos[i].id != todos[j].id,
    ensures
        lookup(todos.remove(first_index(todos, id)), id) == None::<TodoModel>,
        forall|i: int|
            i != id ==> lookup(todos.remove(first_index(todos, id)), i) == lookup(todos, i),
{
    lemma_first_index(todos, id);
    let fi = first_index(todos, id);
    let rem = todos.remove(fi);
    assert(rem.len() == todos.len() - 1);
    assert forall|j: int| 0 <= j < rem.len() implies rem[j].id != id by {
        if j < fi {
            assert(rem[j] == todos[j]);
        } else {
            assert(rem[j] == todos[j + 1]);
        }
    }
    assert(!has_todo(rem, id));
    assert forall|i: int| i != id implies lookup(rem, i) == lookup(todos, i) by {
        if has_todo(todos, i) {
            lemma_first_index(todos, i);
            let gi = first_index(todos, i);
            if gi < fi {
                assert(rem[gi] == todos[gi]);
                assert forall|j: int| 0 <= j < gi implies rem[j].id != i by {
                    assert(rem[j] == todos[j]);
                }
                lemma_first_index_unique(rem, i, gi);
            } else {
                assert(gi != fi);
                assert(rem[gi - 1] == todos[gi]);
                assert forall|j: int| 0 <= j < gi - 1 implies rem[j].id != i by {
                    if j < fi {
                        assert(rem[j] == todos[j]);
                    } else {
                        assert(rem[j] == todos[j + 1]);
                    }
                }
                lemma_first_index_unique(rem, i, gi - 1);
            }
        } else {
            if has_todo(rem, i) {
                let w = choose|w: int| 0 <= w < rem.len() && rem[w].id == i;
                if w < fi {
                    assert(todos[w].id == i);
                } else {
                    assert(todos[w + 1].id == i);
                }
            }
        }
    }
}

} // verus!
