//! The in-memory collection of task records and its lifecycle rules.
//!
//! The collection is an ordered `Vec<Todo>`; its model is the sequence of
//! record views, [`views`]. Ids are assigned as one more than the largest
//! id present ([`max_id`]), recomputed from the collection each time, so
//! deleting the highest id and adding again reuses it. Every mutation
//! keeps the well-formedness invariant: ids are unique and positive.

use vstd::prelude::*;

use crate::record::{Priority, Status, Todo, TodoView, views};

verus! {

/// The largest id in the collection, `0` when it is empty.
pub open spec fn max_id(c: Seq<TodoView>) -> int
    decreases c.len(),
{
    if c.len() == 0 {
        0
    } else {
        let rest = max_id(c.drop_last());
        if c.last().id > rest {
            c.last().id as int
        } else {
            rest
        }
    }
}

/// No two records share an id.
pub open spec fn unique_ids(c: Seq<TodoView>) -> bool {
    forall|i: int, j: int| 0 <= i < j < c.len() ==> c[i].id != c[j].id
}

/// The collection invariant: ids are unique and positive.
pub open spec fn well_formed(c: Seq<TodoView>) -> bool {
    unique_ids(c) && forall|i: int| 0 <= i < c.len() ==> (#[trigger] c[i].id) >= 1
}

/// The index of the first record with the given id, `-1` when none has it.
pub open spec fn find_index(c: Seq<TodoView>, id: u32) -> int
    decreases c.len(),
{
    if c.len() == 0 {
        -1
    } else if c[0].id == id {
        0
    } else {
        let r = find_index(c.drop_first(), id);
        if r < 0 {
            -1
        } else {
            r + 1
        }
    }
}

/// Every id in the collection is bounded by [`max_id`].
pub proof fn lemma_max_id_ge(c: Seq<TodoView>, i: int)
    requires
        0 <= i < c.len(),
    ensures
        c[i].id <= max_id(c),
    decreases c.len(),
{
    if i < c.len() - 1 {
        lemma_max_id_ge(c.drop_last(), i);
    }
}

/// A non-empty collection attains its [`max_id`] at some index.
pub proof fn lemma_max_id_attained(c: Seq<TodoView>)
    requires
        c.len() > 0,
    ensures
        exists|i: int| 0 <= i < c.len() && c[i].id == max_id(c),
    decreases c.len(),
{
    if c.len() == 1 || c.last().id == max_id(c) {
        assert(c[c.len() - 1].id == max_id(c));
    } else {
        lemma_max_id_attained(c.drop_last());
        let i = choose|i: int| 0 <= i < c.drop_last().len() && c.drop_last()[i].id == max_id(
            c.drop_last(),
        );
        assert(c[i].id == max_id(c));
    }
}

/// What [`find_index`] means: `-1` exactly when the id is absent, and
/// otherwise the first index holding the id.
pub proof fn lemma_find_index(c: Seq<TodoView>, id: u32)
    ensures
        find_index(c, id) == -1 ==> forall|k: int|
            0 <= k < c.len() ==> (#[trigger] c[k].id) != id,
        find_index(c, id) != -1 ==> 0 <= find_index(c, id) < c.len() && c[find_index(
            c,
            id,
        )].id == id && forall|k: int| 0 <= k < find_index(c, id) ==> (#[trigger] c[k].id) != id,
    decreases c.len(),
{
    if c.len() == 0 {
    } else if c[0].id == id {
    } else {
        lemma_find_index(c.drop_first(), id);
        let r = find_index(c.drop_first(), id);
        if r >= 0 {
            assert(forall|k: int|
                1 <= k < r + 1 ==> (#[trigger] c[k].id) == c.drop_first()[k - 1].id);
        } else {
            assert(forall|k: int|
                1 <= k < c.len() ==> (#[trigger] c[k].id) == c.drop_first()[k - 1].id);
        }
    }
}

/// The id the next added record will get: `max_id + 1`, so `1` on an
/// empty collection.
pub fn next_id(todos: &Vec<Todo>) -> (r: u32)
    requires
        forall|i: int|
            0 <= i < views(todos@).len() ==> (#[trigger] views(todos@)[i].id) < u32::MAX,
    ensures
        r == max_id(views(todos@)) + 1,
{
    let ghost v = views(todos@);
    let mut m: u32 = 0;
    let mut k: usize = 0;
    proof {
        assert(v.take(0) =~= Seq::<TodoView>::empty());
    }
    while k < todos.len()
        invariant
            k <= todos@.len(),
            v == views(todos@),
            forall|i: int| 0 <= i < v.len() ==> (#[trigger] v[i].id) < u32::MAX,
            m == max_id(v.take(k as int)),
            m < u32::MAX,
        decreases todos@.len() - k,
    {
        let id = todos[k].id;
        proof {
            assert(v[k as int] == todos@[k as int]@);
            assert(id == v[k as int].id);
            assert(v[k as int].id < u32::MAX);
            assert(v.take(k + 1).drop_last() =~= v.take(k as int));
            assert(v.take(k + 1).last() == v[k as int]);
        }
        if id > m {
            m = id;
        }
        k += 1;
    }
    proof {
        assert(v.take(v.len() as int) =~= v);
    }
    m + 1
}

/// Finds the first record with the given id; not-found is a normal
/// outcome, reported as `None`.
pub fn find_by_id(todos: &Vec<Todo>, id: u32) -> (r: Option<usize>)
    ensures
        r matches Some(i) ==> i < todos@.len() && find_index(views(todos@), id) == i && views(
            todos@,
        )[i as int].id == id,
        r is None ==> find_index(views(todos@), id) == -1,
{
    let ghost v = views(todos@);
    proof {
        lemma_find_index(v, id);
    }
    let mut k: usize = 0;
    while k < todos.len()
        invariant
            k <= todos@.len(),
            v == views(todos@),
            forall|j: int| 0 <= j < k ==> (#[trigger] v[j].id) != id,
            find_index(v, id) == -1 || 0 <= find_index(v, id) < v.len(),
        decreases todos@.len() - k,
    {
        if todos[k].id == id {
            proof {
                assert(v[k as int] == todos@[k as int]@);
                assert(v[k as int].id == id);
                lemma_find_index(v, id);
                let f = find_index(v, id);
                assert(f != -1);
                assert(!(f < k)) by {
                    if 0 <= f < k {
                        assert(v[f].id != id);
                    }
                }
                assert(!(f > k)) by {
                    if f > k {
                        assert(v[k as int].id != id);
                    }
                }
            }
            return Some(k);
        }
        k += 1;
    }
    proof {
        lemma_find_index(v, id);
        let f = find_index(v, id);
        if f != -1 {
            assert(v[f].id != id);
        }
    }
    None
}

/// Adds a new record: the id is assigned as `max_id + 1`, the other
/// fields are taken as given, and the record goes to the end. Returns
/// the assigned id. Adding keeps the collection well-formed.
pub fn add(
    todos: &mut Vec<Todo>,
    title: String,
    description: String,
    status: Status,
    priority: Priority,
    created: String,
) -> (id: u32)
    requires
        forall|i: int|
            0 <= i < views(old(todos)@).len() ==> (#[trigger] views(old(todos)@)[i].id)
                < u32::MAX,
    ensures
        id == max_id(views(old(todos)@)) + 1,
        views(final(todos)@) == views(old(todos)@).push(
            TodoView {
                id,
                title: title@,
                description: description@,
                status,
                priority,
                created: created@,
            },
        ),
        well_formed(views(old(todos)@)) ==> well_formed(views(final(todos)@)),
{
    let ghost v0 = views(old(todos)@);
    let id = next_id(todos);
    let ghost new_view = TodoView {
        id,
        title: title@,
        description: description@,
        status,
        priority,
        created: created@,
    };
    let t = Todo { id, title, description, status, priority, created };
    proof {
        assert(t@ == new_view);
    }
    todos.push(t);
    proof {
        assert(views(final(todos)@) =~= v0.push(new_view));
        if well_formed(v0) {
            let v1 = v0.push(new_view);
            assert forall|i: int, j: int| 0 <= i < j < v1.len() implies v1[i].id != v1[j].id by {
                if j == v1.len() - 1 {
                    lemma_max_id_ge(v0, i);
                }
            }
            assert(well_formed(v1));
        }
    }
    id
}

/// Edits the title, description, status and priority of the record with
/// the given id, leaving its id and creation stamp untouched. When no
/// record has the id, nothing changes and `false` comes back.
pub fn update_fields(
    todos: &mut Vec<Todo>,
    id: u32,
    title: String,
    description: String,
    status: Status,
    priority: Priority,
) -> (found: bool)
    ensures
        found <==> find_index(views(old(todos)@), id) >= 0,
        found ==> views(final(todos)@) == views(old(todos)@).update(
            find_index(views(old(todos)@), id),
            TodoView {
                id: views(old(todos)@)[find_index(views(old(todos)@), id)].id,
                title: title@,
                description: description@,
                status,
                priority,
                created: views(old(todos)@)[find_index(views(old(todos)@), id)].created,
            },
        ),
        !found ==> views(final(todos)@) == views(old(todos)@),
        well_formed(views(old(todos)@)) ==> well_formed(views(final(todos)@)),
{
    let ghost v0 = views(old(todos)@);
    match find_by_id(todos, id) {
        Some(i) => {
            proof {
                lemma_find_index(v0, id);
            }
            let t = todos.remove(i);
            let t2 = Todo {
                id: t.id,
                title,
                description,
                status,
                priority,
                created: t.created,
            };
            todos.insert(i, t2);
            proof {
                let w = TodoView {
                    id: v0[i as int].id,
                    title: title@,
                    description: description@,
                    status,
                    priority,
                    created: v0[i as int].created,
                };
                assert(views(final(todos)@) =~= v0.update(i as int, w));
                lemma_update_keeps_well_formed(v0, i as int, w);
            }
            true
        },
        None => false,
    }
}

/// Overwrites the status of the record with the given id; everything
/// else, in that record and in the rest of the collection, stays as it
/// was. When no record has the id, nothing changes and `false` comes back.
pub fn set_status(todos: &mut Vec<Todo>, id: u32, status: Status) -> (found: bool)
    ensures
        found <==> find_index(views(old(todos)@), id) >= 0,
        found ==> views(final(todos)@) == views(old(todos)@).update(
            find_index(views(old(todos)@), id),
            TodoView {
                status,
                ..views(old(todos)@)[find_index(views(old(todos)@), id)]
            },
        ),
        !found ==> views(final(todos)@) == views(old(todos)@),
        well_formed(views(old(todos)@)) ==> well_formed(views(final(todos)@)),
{
    let ghost v0 = views(old(todos)@);
    match find_by_id(todos, id) {
        Some(i) => {
            proof {
                lemma_find_index(v0, id);
            }
            let t = todos.remove(i);
            let t2 = Todo {
                id: t.id,
                title: t.title,
                description: t.description,
                status,
                priority: t.priority,
                created: t.created,
            };
            todos.insert(i, t2);
            proof {
                let w = TodoView { status, ..v0[i as int] };
                assert(views(final(todos)@) =~= v0.update(i as int, w));
                lemma_update_keeps_well_formed(v0, i as int, w);
            }
            true
        },
        None => false,
    }
}

/// Deletes the record with the given id, keeping every other record in
/// its original relative order. When no record has the id, nothing
/// changes and `false` comes back.
pub fn delete(todos: &mut Vec<Todo>, id: u32) -> (found: bool)
    ensures
        found <==> find_index(views(old(todos)@), id) >= 0,
        found ==> views(final(todos)@) == views(old(todos)@).remove(
            find_index(views(old(todos)@), id),
        ),
        !found ==> views(final(todos)@) == views(old(todos)@),
        well_formed(views(old(todos)@)) ==> well_formed(views(final(todos)@)),
{
    let ghost v0 = views(old(todos)@);
    match find_by_id(todos, id) {
        Some(i) => {
            proof {
                lemma_find_index(v0, id);
            }
            let _ = todos.remove(i);
            proof {
                assert(views(final(todos)@) =~= v0.remove(i as int));
                if well_formed(v0) {
                    let v1 = v0.remove(i as int);
                    assert forall|p: int, q: int|
                        0 <= p < q < v1.len() implies v1[p].id != v1[q].id by {
                        let p0 = if p < i { p } else { p + 1 };
                        let q0 = if q < i { q } else { q + 1 };
                        assert(v1[p] == v0[p0]);
                        assert(v1[q] == v0[q0]);
                    }
                    assert forall|p: int| 0 <= p < v1.len() implies (#[trigger] v1[p].id)
                        >= 1 by {
                        let p0 = if p < i { p } else { p + 1 };
                        assert(v1[p] == v0[p0]);
                    }
                }
            }
            true
        },
        None => false,
    }
}

/// An in-place field update never disturbs well-formedness as long as
/// the record keeps its id and the id stays positive.
proof fn lemma_update_keeps_well_formed(c: Seq<TodoView>, i: int, w: TodoView)
    requires
        0 <= i < c.len(),
        w.id == c[i].id,
    ensures
        well_formed(c) ==> well_formed(c.update(i, w)),
{
    if well_formed(c) {
        let c1 = c.update(i, w);
        assert forall|p: int, q: int| 0 <= p < q < c1.len() implies c1[p].id != c1[q].id by {
            assert(c1[p].id == c[p].id);
            assert(c1[q].id == c[q].id);
        }
        assert forall|p: int| 0 <= p < c1.len() implies (#[trigger] c1[p].id) >= 1 by {
            assert(c1[p].id == c[p].id);
        }
    }
}

} // verus!
