//! The row-folding algorithm: re-aggregating a flat left-outer-join result
//! into todo entities with nested label lists.
//!
//! The algorithm is total and pure. Rows may arrive in any order; rows of
//! one todo need not be contiguous. For each distinct todo id the first
//! row seen fixes `text` and `completed`; every row with a present label
//! appends that label to the todo's list unless its id is already there.
//! Todos keep first-seen order, and so do the labels inside each todo.

use vstd::prelude::*;

use crate::domain::Label;
use crate::domain::LabelModel;
use crate::domain::RowModel;
use crate::domain::TodoEntity;
use crate::domain::TodoModel;
use crate::domain::TodoWithLabelFromRow;
use crate::domain::first_index;
use crate::domain::has_label;
use crate::domain::has_todo;
use crate::domain::label_views;
use crate::domain::lemma_first_index;
use crate::domain::lemma_first_index_unique;
use crate::domain::lemma_lookup_push;
use crate::domain::lemma_lookup_update;
use crate::domain::lookup;
use crate::domain::lemma_wf_push;
use crate::domain::lemma_wf_update;
use crate::domain::row_views;
use crate::domain::todo_views;
use crate::domain::todo_wf;
use crate::domain::todos_wf;

verus! {

/// The todo entity a single row stands for: the row's todo fields and a
/// label list holding the row's label, if the row carries one.
pub open spec fn row_todo(row: RowModel) -> TodoModel {
    TodoModel {
        id: row.id,
        text: row.text,
        completed: row.completed,
        labels: match row.label {
            Some(l) => seq![l],
            None => Seq::empty(),
        },
    }
}

/// `t` with one more label at the end of its list.
pub open spec fn attach_label(t: TodoModel, l: LabelModel) -> TodoModel {
    TodoModel { id: t.id, text: t.text, completed: t.completed, labels: t.labels.push(l) }
}

/// One folding step: merge one row into the accumulated todos.
pub open spec fn fold_row(acc: Seq<TodoModel>, row: RowModel) -> Seq<TodoModel> {
    if has_todo(acc, row.id) {
        let i = first_index(acc, row.id);
        match row.label {
            Some(l) => if has_label(acc[i].labels, l.id) {
                acc
            } else {
                acc.update(i, attach_label(acc[i], l))
            },
            None => acc,
        }
    } else {
        acc.push(row_todo(row))
    }
}

/// The folding of a whole row sequence, row by row from the left.
pub open spec fn fold_rows(rows: Seq<RowModel>) -> Seq<TodoModel>
    decreases rows.len(),
{
    if rows.len() == 0 {
        Seq::empty()
    } else {
        fold_row(fold_rows(rows.drop_last()), rows.last())
    }
}

/// Position of the first entity with this id, scanning left to right.
pub(crate) fn index_of_todo(todos: &Vec<TodoEntity>, id: i32) -> (r: Option<usize>)
    ensures
        match r {
            Some(i) => i < todos@.len() && has_todo(todo_views(todos@), id as int) && i
                == first_index(todo_views(todos@), id as int),
            None => !has_todo(todo_views(todos@), id as int),
        },
{
    let ghost views = todo_views(todos@);
    let mut k: usize = 0;
    while k < todos.len()
        invariant
            k <= todos@.len(),
            views == todo_views(todos@),
            forall|j: int| 0 <= j < k ==> views[j].id != id as int,
        decreases todos@.len() - k,
    {
        if todos[k].id == id {
            proof {
                assert(views[k as int].id == id as int);
                lemma_first_index_unique(views, id as int, k as int);
            }
            return Some(k);
        }
        k += 1;
    }
    proof {
        assert forall|i: int| 0 <= i < views.len() implies views[i].id != id as int by {}
    }
    None
}

/// Whether the label list already carries this id.
pub(crate) fn contains_label_id(labels: &Vec<Label>, id: i32) -> (r: bool)
    ensures
        r == has_label(label_views(labels@), id as int),
{
    let ghost views = label_views(labels@);
    let mut k: usize = 0;
    while k < labels.len()
        invariant
            k <= labels@.len(),
            views == label_views(labels@),
            forall|j: int| 0 <= j < k ==> views[j].id != id as int,
        decreases labels@.len() - k,
    {
        if labels[k].id == id {
            proof {
                assert(views[k as int].id == id as int);
            }
            return true;
        }
        k += 1;
    }
    false
}

/// The name a row hands to the label it carries; a null name is read as
/// the empty name.
fn row_label_name(row: &TodoWithLabelFromRow) -> (r: String)
    ensures
        r@ == match row.label_name {
            Some(n) => n@,
            None => Seq::<char>::empty(),
        },
{
    match &row.label_name {
        Some(n) => n.clone(),
        None => String::new(),
    }
}

/// Folds flat join rows into todo entities: one entity per distinct todo
/// id in first-seen order, with that todo's labels nested inside it in
/// first-seen order and without repeated label ids.
pub fn fold_entities(rows: Vec<TodoWithLabelFromRow>) -> (res: Vec<TodoEntity>)
    ensures
        todo_views(res@) == fold_rows(row_views(rows@)),
{
    let ghost all_rows = row_views(rows@);
    let mut res: Vec<TodoEntity> = Vec::new();
    let mut k: usize = 0;
    while k < rows.len()
        invariant
            k <= rows@.len(),
            all_rows == row_views(rows@),
            todo_views(res@) == fold_rows(all_rows.take(k as int)),
        decreases rows@.len() - k,
    {
        let ghost pre = todo_views(res@);
        let ghost rv = rows@[k as int]@;
        let row = &rows[k];
        match index_of_todo(&res, row.id) {
            Some(i) => {
                proof {
                    assert(pre[i as int].labels == label_views(res@[i as int].labels@));
                }
                match row.label_id {
                    Some(lid) => {
                        if !contains_label_id(&res[i].labels, lid) {
                            let name = row_label_name(row);
                            let l = Label { id: lid, name };
                            proof {
                                assert(rv.label == Some(l@));
                            }
                            let ghost lm = l@;
                            let ghost old_seq = res@;
                            let mut entity = res.remove(i);
                            let ghost entity_pre = entity@;
                            entity.labels.push(l);
                            let ghost ev = entity@;
                            proof {
                                assert(entity_pre == pre[i as int]);
                                assert(ev.labels =~= entity_pre.labels.push(lm));
                                assert(ev =~= attach_label(pre[i as int], lm));
                            }
                            res.insert(i, entity);
                            proof {
                                assert(res@ =~= old_seq.update(i as int, res@[i as int]));
                                assert(res@[i as int]@ == ev);
                                assert(todo_views(res@) =~= pre.update(
                                    i as int,
                                    attach_label(pre[i as int], lm),
                                ));
                                assert(todo_views(res@) == fold_row(pre, rv));
                            }
                        } else {
                            proof {
                                assert(todo_views(res@) == fold_row(pre, rv));
                            }
                        }
                    },
                    None => {
                        proof {
                            assert(todo_views(res@) == fold_row(pre, rv));
                        }
                    },
                }
            },
            None => {
                let name_opt = match row.label_id {
                    Some(lid) => Some(Label { id: lid, name: row_label_name(row) }),
                    None => None,
                };
                let labels: Vec<Label> = match name_opt {
                    Some(l) => {
                        let mut v: Vec<Label> = Vec::new();
                        v.push(l);
                        v
                    },
                    None => Vec::new(),
                };
                let entity = TodoEntity {
                    id: row.id,
                    text: row.text.clone(),
                    completed: row.completed,
                    labels,
                };
                let ghost ev = entity@;
                proof {
                    assert(ev.labels =~= row_todo(rv).labels);
                    assert(ev =~= row_todo(rv));
                }
                res.push(entity);
                proof {
                    assert(todo_views(res@) =~= pre.push(ev));
                    assert(todo_views(res@) == fold_row(pre, rv));
                }
            },
        }
        proof {
            assert(all_rows.take(k + 1).drop_last() =~= all_rows.take(k as int));
            assert(all_rows.take(k + 1).last() == rv);
            assert(fold_rows(all_rows.take(k + 1)) == fold_row(pre, rv));
        }
        k += 1;
    }
    proof {
        assert(all_rows.take(rows@.len() as int) =~= all_rows);
    }
    res
}

/// Folds a single row into its todo entity.
pub fn fold_entity(row: TodoWithLabelFromRow) -> (res: TodoEntity)
    ensures
        res@ == row_todo(row@),
{
    let ghost rv = row@;
    let mut rows: Vec<TodoWithLabelFromRow> = Vec::new();
    rows.push(row);
    proof {
        assert(rows@.len() == 1);
        assert(rows@[0]@ == rv);
        assert(row_views(rows@) =~= seq![rv]);
        assert(seq![rv].drop_last() =~= Seq::<RowModel>::empty());
        assert(fold_rows(Seq::<RowModel>::empty()) =~= Seq::<TodoModel>::empty());
        assert(fold_rows(seq![rv]) =~= seq![row_todo(rv)]);
    }
    let mut todos = fold_entities(rows);
    proof {
        assert(todo_views(todos@).len() == 1);
        assert(todos@.len() == 1);
        assert(todo_views(todos@)[0] == todos@[0]@);
        assert(todo_views(todos@) == fold_rows(seq![rv]));
        assert(todos@[0]@ == row_todo(rv));
    }
    todos.remove(0)
}

/// Folding always yields well-formed todos: todo ids are unique, and
/// inside each todo no label id repeats.
pub proof fn lemma_fold_wf(rows: Seq<RowModel>)
    ensures
        todos_wf(fold_rows(rows)),
    decreases rows.len(),
{
    if rows.len() == 0 {
        assert(todos_wf(Seq::<TodoModel>::empty()));
    } else {
        let init = rows.drop_last();
        let row = rows.last();
        lemma_fold_wf(init);
        let acc = fold_rows(init);
        if has_todo(acc, row.id) {
            lemma_first_index(acc, row.id);
            let fi = first_index(acc, row.id);
            match row.label {
                Some(l) => {
                    if !has_label(acc[fi].labels, l.id) {
                        let t = attach_label(acc[fi], l);
                        assert(todo_wf(t)) by {
                            assert(todo_wf(acc[fi]));
                            assert forall|a: int, b: int|
                                0 <= a < b < t.labels.len() implies t.labels[a].id
                                != t.labels[b].id by {
                                if b < acc[fi].labels.len() {
                                    assert(t.labels[a] == acc[fi].labels[a]);
                                    assert(t.labels[b] == acc[fi].labels[b]);
                                } else {
                                    assert(t.labels[a] == acc[fi].labels[a]);
                                    assert(!has_label(acc[fi].labels, l.id));
                                }
                            }
                        }
                        lemma_wf_update(acc, fi, t);
                    }
                },
                None => {},
            }
        } else {
            let t = row_todo(row);
            assert(todo_wf(t)) by {
                match row.label {
                    Some(l) => {
                        assert(t.labels.len() == 1);
                    },
                    None => {
                        assert(t.labels.len() == 0);
                    },
                }
            }
            lemma_wf_push(acc, t);
        }
    }
}

/// No-duplicate-labels law: in every folded todo the label list carries
/// no repeated label id.
pub proof fn lemma_fold_no_duplicate_labels(rows: Seq<RowModel>)
    ensures
        forall|k: int| 0 <= k < fold_rows(rows).len() ==> todo_wf(#[trigger] fold_rows(rows)[k]),
{
    lemma_fold_wf(rows);
}

/// Whether some row carries this todo id.
pub open spec fn rows_have_todo(rows: Seq<RowModel>, id: int) -> bool {
    exists|i: int| 0 <= i < rows.len() && rows[i].id == id
}

/// Whether some row carries this todo id together with this label id.
pub open spec fn rows_have_label(rows: Seq<RowModel>, id: int, lid: int) -> bool {
    exists|i: int|
        0 <= i < rows.len() && rows[i].id == id && rows[i].label is Some && rows[i].label->0.id
            == lid
}

/// Rows are consistent when all rows of one todo id agree on the
/// todo-level fields, as the rows of one join result always do.
pub open spec fn rows_consistent(rows: Seq<RowModel>) -> bool {
    forall|i: int, j: int|
        0 <= i < rows.len() && 0 <= j < rows.len() && (#[trigger] rows[i]).id == (
        #[trigger] rows[j]).id ==> rows[i].text == rows[j].text && rows[i].completed
            == rows[j].completed
}

/// What folding consistent rows produces, id by id: a todo for exactly
/// the ids the rows carry; its text and completion are those of its rows;
/// its label id set is exactly the set of label ids its rows carry.
pub proof fn lemma_fold_characterization(rows: Seq<RowModel>)
    requires
        rows_consistent(rows),
    ensures
        forall|id: int| #[trigger] has_todo(fold_rows(rows), id) <==> rows_have_todo(rows, id),
        forall|i: int|
            0 <= i < rows.len() ==> {
                let t = lookup(fold_rows(rows), (#[trigger] rows[i]).id)->Some_0;
                t.text == rows[i].text && t.completed == rows[i].completed
            },
        forall|id: int, lid: int|
            #[trigger] rows_have_label(rows, id, lid) ==> has_label(
                lookup(fold_rows(rows), id)->Some_0.labels,
                lid,
            ),
        forall|id: int, lid: int|
            rows_have_todo(rows, id) && has_label(lookup(fold_rows(rows), id)->Some_0.labels, lid)
                ==> #[trigger] rows_have_label(rows, id, lid),
    decreases rows.len(),
{
    if rows.len() == 0 {
    } else {
        let init = rows.drop_last();
        let row = rows.last();
        let n = init.len() as int;
        assert(rows_consistent(init)) by {
            assert forall|i: int, j: int|
                0 <= i < init.len() && 0 <= j < init.len() && (#[trigger] init[i]).id == (
                #[trigger] init[j]).id implies init[i].text == init[j].text && init[i].completed
                == init[j].completed by {
                assert(init[i] == rows[i] && init[j] == rows[j]);
            }
        }
        lemma_fold_characterization(init);
        let acc = fold_rows(init);
        let folded = fold_rows(rows);
        assert(folded == fold_row(acc, row));

        // How membership in `rows` relates to membership in `init`.
        assert forall|id: int| #[trigger] rows_have_todo(rows, id) implies rows_have_todo(
            init,
            id,
        ) || id == row.id by {
            let i = choose|i: int| 0 <= i < rows.len() && rows[i].id == id;
            if i < n {
                assert(init[i] == rows[i]);
            }
        }
        assert forall|id: int| rows_have_todo(init, id) implies rows_have_todo(rows, id) by {
            let i = choose|i: int| 0 <= i < init.len() && init[i].id == id;
            assert(rows[i] == init[i]);
        }
        assert(rows[rows.len() - 1] == row);
        assert(rows_have_todo(rows, row.id));
        assert forall|id: int, lid: int| #[trigger] rows_have_label(rows, id, lid) implies
            rows_have_label(init, id, lid) || (id == row.id && row.label is Some
            && row.label->0.id == lid) by {
            let i = choose|i: int|
                0 <= i < rows.len() && rows[i].id == id && rows[i].label is Some
                    && rows[i].label->0.id == lid;
            if i < n {
                assert(init[i] == rows[i]);
            }
        }
        assert forall|id: int, lid: int| #[trigger] rows_have_label(init, id, lid) implies
            rows_have_label(rows, id, lid) by {
            let i = choose|i: int|
                0 <= i < init.len() && init[i].id == id && init[i].label is Some
                    && init[i].label->0.id == lid;
            assert(rows[i] == init[i]);
        }

        if has_todo(acc, row.id) {
            lemma_first_index(acc, row.id);
            let fi = first_index(acc, row.id);
            assert(lookup(acc, row.id) == Some(acc[fi]));
            assert(rows_have_todo(init, row.id));
            let w = choose|w: int| 0 <= w < init.len() && init[w].id == row.id;
            let cur = acc[fi];
            let stays = match row.label {
                Some(l) => has_label(cur.labels, l.id),
                None => true,
            };
            if stays {
                assert(folded == acc);
                assert forall|id: int| #[trigger] has_todo(folded, id) <==> rows_have_todo(
                    rows,
                    id,
                ) by {}
                assert forall|i: int| 0 <= i < rows.len() implies {
                    let t = lookup(folded, (#[trigger] rows[i]).id)->Some_0;
                    t.text == rows[i].text && t.completed == rows[i].completed
                } by {
                    if i < n {
                        assert(init[i] == rows[i]);
                    } else {
                        assert(rows[i] == row);
                        assert(init[w] == rows[w]);
                        assert(rows[i].text == rows[w].text && rows[i].completed
                            == rows[w].completed);
                    }
                }
                assert forall|id: int, lid: int| #[trigger] rows_have_label(rows, id, lid)
                    implies has_label(lookup(folded, id)->Some_0.labels, lid) by {
                    if !rows_have_label(init, id, lid) {
                        assert(id == row.id && row.label is Some && row.label->0.id == lid);
                        assert(has_label(cur.labels, lid));
                    }
                }
                assert forall|id: int, lid: int|
                    rows_have_todo(rows, id) && has_label(
                        lookup(folded, id)->Some_0.labels,
                        lid,
                    ) implies #[trigger] rows_have_label(rows, id, lid) by {
                    assert(rows_have_todo(init, id) || id == row.id);
                    assert(rows_have_label(init, id, lid));
                }
            } else {
                let l = row.label->0;
                let t2 = attach_label(cur, l);
                assert(folded == acc.update(fi, t2));
                lemma_lookup_update(acc, t2);
                assert(lookup(folded, row.id) == Some(t2));
                // Membership in the updated sequence is unchanged, id-wise.
                assert forall|id: int| #[trigger] has_todo(folded, id) implies has_todo(
                    acc,
                    id,
                ) by {
                    let p = choose|p: int| 0 <= p < folded.len() && folded[p].id == id;
                    if p != fi {
                        assert(folded[p] == acc[p]);
                    }
                }
                assert forall|id: int| #[trigger] has_todo(acc, id) implies has_todo(
                    folded,
                    id,
                ) by {
                    let p = choose|p: int| 0 <= p < acc.len() && acc[p].id == id;
                    if p != fi {
                        assert(folded[p] == acc[p]);
                    } else {
                        assert(folded[fi].id == id);
                    }
                }
                assert forall|i: int| 0 <= i < rows.len() implies {
                    let t = lookup(folded, (#[trigger] rows[i]).id)->Some_0;
                    t.text == rows[i].text && t.completed == rows[i].completed
                } by {
                    let id = rows[i].id;
                    if id == row.id {
                        assert(lookup(folded, id) == Some(t2));
                        assert(t2.text == cur.text && t2.completed == cur.completed);
                        assert(init[w] == rows[w]);
                        assert(lookup(acc, row.id)->Some_0 == cur);
                        assert(cur.text == rows[w].text && cur.completed == rows[w].completed);
                        assert(rows[i].text == rows[w].text && rows[i].completed
                            == rows[w].completed);
                    } else {
                        assert(lookup(folded, id) == lookup(acc, id));
                        if i < n {
                            assert(init[i] == rows[i]);
                        } else {
                            assert(rows[i] == row);
                        }
                    }
                }
                // Label membership in the new element.
                assert forall|lid: int| #[trigger] has_label(t2.labels, lid) implies has_label(
                    cur.labels,
                    lid,
                ) || lid == l.id by {
                    let p = choose|p: int| 0 <= p < t2.labels.len() && t2.labels[p].id == lid;
                    if p < cur.labels.len() {
                        assert(t2.labels[p] == cur.labels[p]);
                    }
                }
                assert forall|lid: int| has_label(cur.labels, lid) || lid == l.id implies
                    #[trigger] has_label(t2.labels, lid) by {
                    if has_label(cur.labels, lid) {
                        let p = choose|p: int|
                            0 <= p < cur.labels.len() && cur.labels[p].id == lid;
                        assert(t2.labels[p] == cur.labels[p]);
                    } else {
                        assert(t2.labels[cur.labels.len() as int].id == lid);
                    }
                }
                assert forall|id: int, lid: int| #[trigger] rows_have_label(rows, id, lid)
                    implies has_label(lookup(folded, id)->Some_0.labels, lid) by {
                    if id == row.id {
                        if rows_have_label(init, id, lid) {
                            assert(has_label(cur.labels, lid));
                        } else {
                            assert(lid == l.id);
                        }
                    } else {
                        assert(rows_have_label(init, id, lid));
                        assert(lookup(folded, id) == lookup(acc, id));
                    }
                }
                assert forall|id: int, lid: int|
                    rows_have_todo(rows, id) && has_label(
                        lookup(folded, id)->Some_0.labels,
                        lid,
                    ) implies #[trigger] rows_have_label(rows, id, lid) by {
                    if id == row.id {
                        assert(has_label(t2.labels, lid));
                        if has_label(cur.labels, lid) {
                            assert(rows_have_label(init, id, lid));
                        } else {
                            assert(lid == l.id);
                            assert(rows[rows.len() - 1] == row);
                        }
                    } else {
                        assert(lookup(folded, id) == lookup(acc, id));
                        assert(rows_have_todo(init, id));
                        assert(rows_have_label(init, id, lid));
                    }
                }
            }
        } else {
            let t2 = row_todo(row);
            assert(folded == acc.push(t2));
            lemma_lookup_push(acc, t2);
            assert(!rows_have_todo(init, row.id));
            assert forall|id: int| #[trigger] has_todo(folded, id) implies has_todo(acc, id)
                || id == row.id by {
                let p = choose|p: int| 0 <= p < folded.len() && folded[p].id == id;
                if p < acc.len() {
                    assert(folded[p] == acc[p]);
                }
            }
            assert forall|id: int| has_todo(acc, id) implies #[trigger] has_todo(folded, id) by {
                let p = choose|p: int| 0 <= p < acc.len() && acc[p].id == id;
                assert(folded[p] == acc[p]);
            }
            assert(folded[acc.len() as int] == t2);
            assert(has_todo(folded, row.id));
            assert forall|i: int| 0 <= i < rows.len() implies {
                let t = lookup(folded, (#[trigger] rows[i]).id)->Some_0;
                t.text == rows[i].text && t.completed == rows[i].completed
            } by {
                let id = rows[i].id;
                if id == row.id {
                    assert(lookup(folded, id) == Some(t2));
                    assert(rows[rows.len() - 1] == row);
                    assert(rows[i].text == row.text && rows[i].completed == row.completed);
                } else {
                    assert(lookup(folded, id) == lookup(acc, id));
                    assert(i < n);
                    assert(init[i] == rows[i]);
                }
            }
            // Label membership in the pushed element.
            assert forall|lid: int| #[trigger] has_label(t2.labels, lid) implies row.label
                is Some && row.label->0.id == lid by {
                match row.label {
                    Some(l) => {
                        assert(t2.labels == seq![l]);
                        let p = choose|p: int|
                            0 <= p < t2.labels.len() && t2.labels[p].id == lid;
                        assert(t2.labels[p] == l);
                    },
                    None => {
                        assert(t2.labels.len() == 0);
                    },
                }
            }
            assert forall|id: int, lid: int| #[trigger] rows_have_label(rows, id, lid) implies
                has_label(lookup(folded, id)->Some_0.labels, lid) by {
                if id == row.id {
                    assert(!rows_have_label(init, id, lid));
                    assert(row.label is Some && row.label->0.id == lid);
                    let l = row.label->0;
                    assert(t2.labels == seq![l]);
                    assert(t2.labels[0].id == lid);
                    assert(lookup(folded, id) == Some(t2));
                } else {
                    assert(rows_have_label(init, id, lid));
                    assert(lookup(folded, id) == lookup(acc, id));
                }
            }
            assert forall|id: int, lid: int|
                rows_have_todo(rows, id) && has_label(lookup(folded, id)->Some_0.labels, lid)
                implies #[trigger] rows_have_label(rows, id, lid) by {
                if id == row.id {
                    assert(lookup(folded, id) == Some(t2));
                    assert(row.label is Some && row.label->0.id == lid);
                    assert(rows[rows.len() - 1] == row);
                } else {
                    assert(lookup(folded, id) == lookup(acc, id));
                    assert(rows_have_todo(init, id));
                    assert(rows_have_label(init, id, lid));
                }
            }
        }
    }
}

/// Folding order invariance: two orderings of one consistent dataset fold
/// to the same todos up to presentation order — the same todo id set,
/// and per id the same text, completion and label id set.
pub proof fn lemma_fold_order_invariant(rows1: Seq<RowModel>, rows2: Seq<RowModel>)
    requires
        rows_consistent(rows1),
        rows1.to_multiset() == rows2.to_multiset(),
    ensures
        forall|id: int|
            #[trigger] has_todo(fold_rows(rows1), id) <==> #[trigger] has_todo(
                fold_rows(rows2),
                id,
            ),
        forall|id: int|
            #[trigger] has_todo(fold_rows(rows1), id) ==> {
                let t1 = lookup(fold_rows(rows1), id)->Some_0;
                let t2 = lookup(fold_rows(rows2), id)->Some_0;
                &&& t1.text == t2.text
                &&& t1.completed == t2.completed
                &&& forall|lid: int|
                    #[trigger] has_label(t1.labels, lid) <==> #[trigger] has_label(
                        t2.labels,
                        lid,
                    )
            },
{
    rows1.to_multiset_ensures();
    rows2.to_multiset_ensures();
    // Same multiset means same membership.
    assert forall|x: RowModel| #[trigger] rows1.contains(x) implies rows2.contains(x) by {
        assert(rows1.to_multiset().count(x) > 0);
    }
    assert forall|x: RowModel| #[trigger] rows2.contains(x) implies rows1.contains(x) by {
        assert(rows2.to_multiset().count(x) > 0);
    }
    assert(rows_consistent(rows2)) by {
        assert forall|i: int, j: int|
            0 <= i < rows2.len() && 0 <= j < rows2.len() && (#[trigger] rows2[i]).id == (
            #[trigger] rows2[j]).id implies rows2[i].text == rows2[j].text && rows2[i].completed
            == rows2[j].completed by {
            assert(rows2.contains(rows2[i]) && rows2.contains(rows2[j]));
            let a = choose|a: int| 0 <= a < rows1.len() && rows1[a] == rows2[i];
            let b = choose|b: int| 0 <= b < rows1.len() && rows1[b] == rows2[j];
            assert(rows1[a].id == rows1[b].id);
        }
    }
    lemma_fold_characterization(rows1);
    lemma_fold_characterization(rows2);
    assert forall|id: int| #[trigger] rows_have_todo(rows1, id) implies rows_have_todo(
        rows2,
        id,
    ) by {
        let i = choose|i: int| 0 <= i < rows1.len() && rows1[i].id == id;
        assert(rows1.contains(rows1[i]));
        let j = choose|j: int| 0 <= j < rows2.len() && rows2[j] == rows1[i];
        assert(rows2[j].id == id);
    }
    assert forall|id: int| #[trigger] rows_have_todo(rows2, id) implies rows_have_todo(
        rows1,
        id,
    ) by {
        let i = choose|i: int| 0 <= i < rows2.len() && rows2[i].id == id;
        assert(rows2.contains(rows2[i]));
        let j = choose|j: int| 0 <= j < rows1.len() && rows1[j] == rows2[i];
        assert(rows1[j].id == id);
    }
    assert forall|id: int, lid: int| #[trigger] rows_have_label(rows1, id, lid) implies
        rows_have_label(rows2, id, lid) by {
        let i = choose|i: int|
            0 <= i < rows1.len() && rows1[i].id == id && rows1[i].label is Some
                && rows1[i].label->0.id == lid;
        assert(rows1.contains(rows1[i]));
        let j = choose|j: int| 0 <= j < rows2.len() && rows2[j] == rows1[i];
        assert(rows2[j].id == id && rows2[j].label is Some && rows2[j].label->0.id == lid);
    }
    assert forall|id: int, lid: int| #[trigger] rows_have_label(rows2, id, lid) implies
        rows_have_label(rows1, id, lid) by {
        let i = choose|i: int|
            0 <= i < rows2.len() && rows2[i].id == id && rows2[i].label is Some
                && rows2[i].label->0.id == lid;
        assert(rows2.contains(rows2[i]));
        let j = choose|j: int| 0 <= j < rows1.len() && rows1[j] == rows2[i];
        assert(rows1[j].id == id && rows1[j].label is Some && rows1[j].label->0.id == lid);
    }
    assert forall|id: int| #[trigger] has_todo(fold_rows(rows1), id) implies {
        let t1 = lookup(fold_rows(rows1), id)->Some_0;
        let t2 = lookup(fold_rows(rows2), id)->Some_0;
        &&& t1.text == t2.text
        &&& t1.completed == t2.completed
        &&& forall|lid: int|
            #[trigger] has_label(t1.labels, lid) <==> #[trigger] has_label(t2.labels, lid)
    } by {
        let t1 = lookup(fold_rows(rows1), id)->Some_0;
        let t2 = lookup(fold_rows(rows2), id)->Some_0;
        let i = choose|i: int| 0 <= i < rows1.len() && rows1[i].id == id;
        assert(rows1.contains(rows1[i]));
        let j = choose|j: int| 0 <= j < rows2.len() && rows2[j] == rows1[i];
        assert(t1.text == rows1[i].text && t1.completed == rows1[i].completed);
        assert(t2.text == rows2[j].text && t2.completed == rows2[j].completed);
        assert forall|lid: int| #[trigger] has_label(t1.labels, lid) implies has_label(
            t2.labels,
            lid,
        ) by {
            assert(rows_have_label(rows1, id, lid));
            assert(rows_have_label(rows2, id, lid));
        }
        assert forall|lid: int| #[trigger] has_label(t2.labels, lid) implies has_label(
            t1.labels,
            lid,
        ) by {
            assert(rows_have_label(rows2, id, lid));
            assert(rows_have_label(rows1, id, lid));
        }
    }
}

/// One join row per label of `t`, in order.
pub open spec fn label_rows(t: TodoModel) -> Seq<RowModel> {
    t.labels.map_values(
        |l: LabelModel| RowModel { id: t.id, text: t.text, completed: t.completed, label: Some(l) },
    )
}

/// The join rows that stand for one todo: one row per label, or a single
/// label-less row for a todo without labels.
pub open spec fn flatten_todo(t: TodoModel) -> Seq<RowModel> {
    if t.labels.len() == 0 {
        seq![RowModel { id: t.id, text: t.text, completed: t.completed, label: None }]
    } else {
        label_rows(t)
    }
}

/// The join rows that stand for a whole todo sequence, in order.
pub open spec fn flatten_todos(todos: Seq<TodoModel>) -> Seq<RowModel>
    decreases todos.len(),
{
    if todos.len() == 0 {
        Seq::empty()
    } else {
        flatten_todos(todos.drop_last()) + flatten_todo(todos.last())
    }
}

/// Folding that starts from already accumulated todos.
pub open spec fn fold_rows_from(acc: Seq<TodoModel>, rows: Seq<RowModel>) -> Seq<TodoModel>
    decreases rows.len(),
{
    if rows.len() == 0 {
        acc
    } else {
        fold_row(fold_rows_from(acc, rows.drop_last()), rows.last())
    }
}

/// Folding a concatenation folds the two parts in turn.
proof fn lemma_fold_concat(a: Seq<RowModel>, b: Seq<RowModel>)
    ensures
        fold_rows(a + b) == fold_rows_from(fold_rows(a), b),
    decreases b.len(),
{
    if b.len() == 0 {
        assert(a + b =~= a);
    } else {
        assert((a + b).drop_last() =~= a + b.drop_last());
        assert((a + b).last() == b.last());
        lemma_fold_concat(a, b.drop_last());
    }
}

/// Folding the first `k` label rows of `t` onto todos that do not carry
/// `t.id` appends `t` restricted to its first `k` labels.
proof fn lemma_fold_label_rows(acc: Seq<TodoModel>, t: TodoModel, k: int)
    requires
        !has_todo(acc, t.id),
        todo_wf(t),
        1 <= k <= t.labels.len(),
    ensures
        fold_rows_from(acc, label_rows(t).take(k)) == acc.push(
            TodoModel { id: t.id, text: t.text, completed: t.completed, labels: t.labels.take(k) },
        ),
    decreases k,
{
    let rows = label_rows(t).take(k);
    let target = TodoModel {
        id: t.id,
        text: t.text,
        completed: t.completed,
        labels: t.labels.take(k),
    };
    if k == 1 {
        let r0 = label_rows(t)[0];
        assert(rows.drop_last() =~= Seq::<RowModel>::empty());
        assert(rows.last() == r0);
        assert(fold_rows_from(acc, rows.drop_last()) == acc);
        assert(r0.label == Some(t.labels[0]));
        assert(row_todo(r0) =~= target) by {
            assert(row_todo(r0).labels =~= t.labels.take(1));
        }
        assert(fold_rows_from(acc, rows) == acc.push(target));
    } else {
        let prev = label_rows(t).take(k - 1);
        lemma_fold_label_rows(acc, t, k - 1);
        let p = TodoModel {
            id: t.id,
            text: t.text,
            completed: t.completed,
            labels: t.labels.take(k - 1),
        };
        let mid = acc.push(p);
        assert(rows.drop_last() =~= prev);
        let r = label_rows(t)[k - 1];
        assert(rows.last() == r);
        assert(fold_rows_from(acc, rows) == fold_row(mid, r));
        let l = t.labels[k - 1];
        assert(r.label == Some(l));
        assert(mid[acc.len() as int] == p);
        assert forall|j: int| 0 <= j < acc.len() implies mid[j].id != t.id by {
            assert(mid[j] == acc[j]);
        }
        lemma_first_index_unique(mid, t.id, acc.len() as int);
        assert(first_index(mid, r.id) == acc.len());
        assert(!has_label(p.labels, l.id)) by {
            if has_label(p.labels, l.id) {
                let q = choose|q: int| 0 <= q < p.labels.len() && p.labels[q].id == l.id;
                assert(p.labels[q] == t.labels[q]);
                assert(t.labels[q].id != t.labels[k - 1].id);
            }
        }
        let t2 = attach_label(p, l);
        assert(fold_row(mid, r) == mid.update(acc.len() as int, t2));
        assert(t2 =~= target) by {
            assert(t2.labels =~= t.labels.take(k));
        }
        assert(mid.update(acc.len() as int, t2) =~= acc.push(target));
    }
}

/// Folding the rows of one well-formed todo, whose id the accumulated
/// todos do not carry, appends exactly that todo.
proof fn lemma_fold_flatten_todo(acc: Seq<TodoModel>, t: TodoModel)
    requires
        !has_todo(acc, t.id),
        todo_wf(t),
    ensures
        fold_rows_from(acc, flatten_todo(t)) == acc.push(t),
{
    if t.labels.len() == 0 {
        let rows = flatten_todo(t);
        assert(rows.len() == 1);
        assert(rows.drop_last() =~= Seq::<RowModel>::empty());
        assert(fold_rows_from(acc, rows.drop_last()) == acc);
        assert(row_todo(rows.last()) =~= t);
        assert(fold_rows_from(acc, rows) == acc.push(t));
    } else {
        let n = t.labels.len() as int;
        lemma_fold_label_rows(acc, t, n);
        assert(label_rows(t).take(n) =~= label_rows(t));
        assert(TodoModel {
            id: t.id,
            text: t.text,
            completed: t.completed,
            labels: t.labels.take(n),
        } =~= t);
    }
}

/// Folding the flattening of well-formed todos reproduces them exactly.
pub proof fn lemma_fold_flatten(todos: Seq<TodoModel>)
    requires
        todos_wf(todos),
    ensures
        fold_rows(flatten_todos(todos)) == todos,
    decreases todos.len(),
{
    if todos.len() == 0 {
    } else {
        let init = todos.drop_last();
        let t = todos.last();
        assert(todos_wf(init)) by {
            assert forall|i: int, j: int|
                0 <= i < j < init.len() implies init[i].id != init[j].id by {
                assert(init[i] == todos[i] && init[j] == todos[j]);
            }
            assert forall|i: int| 0 <= i < init.len() implies todo_wf(#[trigger] init[i]) by {
                assert(init[i] == todos[i]);
            }
        }
        lemma_fold_flatten(init);
        lemma_fold_concat(flatten_todos(init), flatten_todo(t));
        assert(!has_todo(init, t.id)) by {
            if has_todo(init, t.id) {
                let j = choose|j: int| 0 <= j < init.len() && init[j].id == t.id;
                assert(init[j] == todos[j]);
                assert(todos[j].id != todos[todos.len() - 1].id);
            }
        }
        assert(todo_wf(t)) by {
            assert(todos[todos.len() - 1] == t);
        }
        lemma_fold_flatten_todo(init, t);
        assert(init.push(t) =~= todos);
    }
}

/// Folding idempotence law: flattening a folded result back into rows and
/// folding again yields the same entity sequence.
pub proof fn lemma_fold_idempotent(rows: Seq<RowModel>)
    ensures
        fold_rows(flatten_todos(fold_rows(rows))) == fold_rows(rows),
{
    lemma_fold_wf(rows);
    lemma_fold_flatten(fold_rows(rows));
}

} // verus!
