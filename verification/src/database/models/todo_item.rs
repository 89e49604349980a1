//! The todo-item relation: `{id, message, priority, done}` rows with unique ids.

use vstd::prelude::*;

use crate::database::priority::Priority;
use crate::database::{
    contains_id, fetch_count, lemma_filter_no_duplicates, Database, StoreError, StoreView,
};

verus! {

/// One row of the todo-item relation.
#[derive(Debug, PartialEq)]
pub struct TodoItemModel {
    pub id: i32,
    pub message: String,
    pub priority: Priority,
    pub done: bool,
}

/// The mathematical content of a [`TodoItemModel`] row.
#[verifier::ext_equal]
pub ghost struct ItemRow {
    pub id: i32,
    pub message: Seq<char>,
    pub priority: Priority,
    pub done: bool,
}

impl View for TodoItemModel {
    type V = ItemRow;

    open spec fn view(&self) -> ItemRow {
        ItemRow { id: self.id, message: self.message@, priority: self.priority, done: self.done }
    }
}

impl Clone for TodoItemModel {
    fn clone(&self) -> (res: Self)
        ensures
            res@ == self@,
    {
        TodoItemModel {
            id: self.id,
            message: self.message.clone(),
            priority: self.priority,
            done: self.done,
        }
    }
}

/// The rows of a todo-item table, viewed mathematically.
pub open spec fn item_rows(v: Seq<TodoItemModel>) -> Seq<ItemRow> {
    v.map_values(|t: TodoItemModel| t@)
}

/// No two rows share an id.
pub open spec fn items_distinct(items: Seq<ItemRow>) -> bool {
    forall|i: int, j: int| #![trigger items[i], items[j]]
        0 <= i < j < items.len() ==> items[i].id != items[j].id
}

/// Every row id was handed out by the counter: in `1..next`.
pub open spec fn item_ids_bounded(items: Seq<ItemRow>, next: int) -> bool {
    forall|i: int| #![trigger items[i]]
        0 <= i < items.len() ==> 1 <= items[i].id && items[i].id < next
}

/// Some row carries this id.
pub open spec fn has_item_id(items: Seq<ItemRow>, id: i32) -> bool {
    exists|i: int| 0 <= i < items.len() && (#[trigger] items[i]).id == id
}

/// The index of the row with this id; meaningful when `has_item_id`.
pub open spec fn item_idx(items: Seq<ItemRow>, id: i32) -> int {
    choose|i: int| 0 <= i < items.len() && (#[trigger] items[i]).id == id
}

/// In a table with distinct ids, the row index of an id is unique.
pub proof fn lemma_item_idx_unique(items: Seq<ItemRow>, i: int, id: i32)
    requires
        items_distinct(items),
        0 <= i < items.len(),
        items[i].id == id,
    ensures
        has_item_id(items, id),
        item_idx(items, id) == i,
{
    let j = item_idx(items, id);
    assert(0 <= j < items.len() && items[j].id == id);
    if i != j {
        assert(items[i].id != items[j].id);
    }
}

/// The `done` flag an insert starts from: the given value, or false.
pub open spec fn done_flag(done: Option<bool>) -> bool {
    match done {
        Some(b) => b,
        None => false,
    }
}

/// Insert: append a fresh row under the next generated id. Returns the new
/// store and the id.
pub open spec fn item_saved(t: StoreView, message: Seq<char>, priority: Priority, done: bool) -> (
    StoreView,
    i32,
) {
    (
        StoreView {
            items: t.items.push(
                ItemRow { id: t.next_item_id as i32, message, priority, done },
            ),
            next_item_id: t.next_item_id + 1,
            ..t
        },
        t.next_item_id as i32,
    )
}

/// Update: the row keeping id `id` carries `message` afterwards.
/// Meaningful when `has_item_id(t.items, id)`.
pub open spec fn item_message_updated(t: StoreView, id: i32, message: Seq<char>) -> StoreView {
    let i = item_idx(t.items, id);
    StoreView { items: t.items.update(i, ItemRow { message, ..t.items[i] }), ..t }
}

/// Update: the row keeping id `id` carries `priority` afterwards.
/// Meaningful when `has_item_id(t.items, id)`.
pub open spec fn item_priority_updated(t: StoreView, id: i32, priority: Priority) -> StoreView {
    let i = item_idx(t.items, id);
    StoreView { items: t.items.update(i, ItemRow { priority, ..t.items[i] }), ..t }
}

/// Toggle: the row keeping id `id` has its `done` flag flipped in place.
/// Meaningful when `has_item_id(t.items, id)`.
pub open spec fn item_done_toggled(t: StoreView, id: i32) -> StoreView {
    let i = item_idx(t.items, id);
    StoreView { items: t.items.update(i, ItemRow { done: !t.items[i].done, ..t.items[i] }), ..t }
}

/// Removal by id: the row is gone; everything else is untouched. A miss
/// removes nothing.
pub open spec fn item_removed(t: StoreView, id: i32) -> StoreView {
    StoreView { items: t.items.filter(|it: ItemRow| it.id != id), ..t }
}

/// The todo-item store: CRUD over the todo-item relation.
pub struct TodoItemEntity;

impl TodoItemEntity {
    /// The index of the row keeping id `id`, scanning in table order.
    fn position_by_id(items: &Vec<TodoItemModel>, id: i32) -> (r: Option<usize>)
        ensures
            match r {
                Some(i) => i < items.len() && item_rows(items@)[i as int].id == id,
                None => !has_item_id(item_rows(items@), id),
            },
    {
        let mut i: usize = 0;
        while i < items.len()
            invariant
                i <= items.len(),
                forall|k: int| 0 <= k < i ==> item_rows(items@)[k].id != id,
            decreases items.len() - i,
        {
            if items[i].id == id {
                return Some(i);
            }
            i = i + 1;
        }
        None
    }

    /// Whether an item row with this id exists.
    pub fn has_item(db: &Database, id: i32) -> (r: bool)
        ensures
            r == has_item_id(db@.items, id),
    {
        Self::position_by_id(&db.items, id).is_some()
    }

    /// Insert a new item; `done` defaults to false. Returns the generated id.
    pub fn save(db: &mut Database, message: String, priority: Priority, done: Option<bool>) -> (r:
        i32)
        requires
            old(db)@.wf(),
            old(db)@.can_add_item(),
        ensures
            final(db)@.wf(),
            final(db)@ == item_saved(old(db)@, message@, priority, done_flag(done)).0,
            r == item_saved(old(db)@, message@, priority, done_flag(done)).1,
            has_item_id(final(db)@.items, r),
            item_idx(final(db)@.items, r) == old(db)@.items.len(),
    {
        let id = db.next_item_id;
        let ghost t0 = db@;
        let d = match done {
            Some(b) => b,
            None => false,
        };
        db.items.push(TodoItemModel { id, message, priority, done: d });
        db.next_item_id = db.next_item_id + 1;
        proof {
            let nrow = ItemRow { id, message: message@, priority, done: d };
            assert(db@.items =~= t0.items.push(nrow));
            assert(db@ =~= item_saved(t0, message@, priority, done_flag(done)).0);
            let n = t0.items.len() as int;
            assert(db@.items[n] == nrow);
            assert forall|i: int, j: int| #![trigger db@.items[i], db@.items[j]]
                0 <= i < j < db@.items.len() implies db@.items[i].id != db@.items[j].id by {
                if j == n {
                    assert(t0.items[i].id < t0.next_item_id);
                }
            }
            lemma_item_idx_unique(db@.items, n, id);
        }
        id
    }

    /// All items, or the first `limit` of them, in table order.
    #[verifier::loop_isolation(false)]
    pub fn fetch_all(db: &Database, limit: Option<u64>) -> (r: Vec<TodoItemModel>)
        ensures
            item_rows(r@) == db@.items.take(fetch_count(limit, db@.items.len() as int)),
    {
        let len = db.items.len();
        let n: usize = match limit {
            None => len,
            Some(l) => if l < len as u64 {
                l as usize
            } else {
                len
            },
        };
        let mut out: Vec<TodoItemModel> = Vec::new();
        let mut i: usize = 0;
        while i < n
            invariant
                i <= n,
                item_rows(out@) =~= db@.items.take(i as int),
            decreases n - i,
        {
            out.push(db.items[i].clone());
            proof {
                assert(item_rows(out@) =~= db@.items.take(i + 1));
            }
            i = i + 1;
        }
        proof {
            assert(n as int == fetch_count(limit, db@.items.len() as int));
        }
        out
    }

    /// The items whose id is in `ids`, in table order; missing ids are
    /// silently omitted.
    #[verifier::loop_isolation(false)]
    pub fn find_all_by_id(db: &Database, ids: &Vec<i32>) -> (r: Vec<TodoItemModel>)
        ensures
            item_rows(r@) == db@.items.filter(|it: ItemRow| ids@.contains(it.id)),
    {
        let ghost pv = |it: ItemRow| ids@.contains(it.id);
        let mut out: Vec<TodoItemModel> = Vec::new();
        let mut i: usize = 0;
        proof {
            assert(item_rows(out@) =~= db@.items.take(0).filter(pv)) by {
                reveal(Seq::filter);
            }
        }
        while i < db.items.len()
            invariant
                i <= db.items.len(),
                item_rows(out@) =~= db@.items.take(i as int).filter(pv),
            decreases db.items.len() - i,
        {
            proof {
                db@.items.lemma_take_succ_push(i as int);
                Seq::lemma_filter_push(db@.items.take(i as int), db@.items[i as int], pv);
            }
            if contains_id(ids, db.items[i].id) {
                out.push(db.items[i].clone());
                proof {
                    assert(pv(db@.items[i as int]));
                    assert(item_rows(out@) =~= db@.items.take(i as int + 1).filter(pv));
                }
            } else {
                proof {
                    assert(!pv(db@.items[i as int]));
                }
            }
            i = i + 1;
        }
        proof {
            assert(db@.items.take(db@.items.len() as int) =~= db@.items);
        }
        out
    }

    /// Replace the message of the item keeping id `id`; fails with
    /// `NotFound` when the id is absent.
    pub fn update_message(db: &mut Database, id: i32, message: String) -> (r: Result<
        (),
        StoreError,
    >)
        requires
            old(db)@.wf(),
        ensures
            final(db)@.wf(),
            has_item_id(old(db)@.items, id) ==> r == Ok::<(), StoreError>(()) && final(db)@
                == item_message_updated(old(db)@, id, message@),
            !has_item_id(old(db)@.items, id) ==> r == Err::<(), StoreError>(StoreError::NotFound)
                && final(db)@ == old(db)@,
    {
        let ghost t0 = db@;
        match Self::position_by_id(&db.items, id) {
            None => Err(StoreError::NotFound),
            Some(i) => {
                proof {
                    lemma_item_idx_unique(t0.items, i as int, id);
                }
                let priority = db.items[i].priority;
                let done = db.items[i].done;
                db.items.set(i, TodoItemModel { id, message, priority, done });
                proof {
                    assert(db@.items =~= t0.items.update(
                        i as int,
                        ItemRow { message: message@, ..t0.items[i as int] },
                    ));
                    assert(db@ =~= item_message_updated(t0, id, message@));
                    lemma_items_update_wf(t0, i as int, db@.items[i as int]);
                }
                Ok(())
            },
        }
    }

    /// Replace the priority of the item keeping id `id`; fails with
    /// `NotFound` when the id is absent.
    pub fn update_priority(db: &mut Database, id: i32, priority: Priority) -> (r: Result<
        (),
        StoreError,
    >)
        requires
            old(db)@.wf(),
        ensures
            final(db)@.wf(),
            has_item_id(old(db)@.items, id) ==> r == Ok::<(), StoreError>(()) && final(db)@
                == item_priority_updated(old(db)@, id, priority),
            !has_item_id(old(db)@.items, id) ==> r == Err::<(), StoreError>(StoreError::NotFound)
                && final(db)@ == old(db)@,
    {
        let ghost t0 = db@;
        match Self::position_by_id(&db.items, id) {
            None => Err(StoreError::NotFound),
            Some(i) => {
                proof {
                    lemma_item_idx_unique(t0.items, i as int, id);
                }
                let message = db.items[i].message.clone();
                let done = db.items[i].done;
                db.items.set(i, TodoItemModel { id, message, priority, done });
                proof {
                    assert(db@.items =~= t0.items.update(
                        i as int,
                        ItemRow { priority, ..t0.items[i as int] },
                    ));
                    assert(db@ =~= item_priority_updated(t0, id, priority));
                    lemma_items_update_wf(t0, i as int, db@.items[i as int]);
                }
                Ok(())
            },
        }
    }

    /// Flip the `done` flag of the item keeping id `id` in place; fails
    /// with `NotFound` when the id is absent.
    pub fn revert_done(db: &mut Database, id: i32) -> (r: Result<(), StoreError>)
        requires
            old(db)@.wf(),
        ensures
            final(db)@.wf(),
            has_item_id(old(db)@.items, id) ==> r == Ok::<(), StoreError>(()) && final(db)@
                == item_done_toggled(old(db)@, id),
            !has_item_id(old(db)@.items, id) ==> r == Err::<(), StoreError>(StoreError::NotFound)
                && final(db)@ == old(db)@,
    {
        let ghost t0 = db@;
        match Self::position_by_id(&db.items, id) {
            None => Err(StoreError::NotFound),
            Some(i) => {
                proof {
                    lemma_item_idx_unique(t0.items, i as int, id);
                }
                let message = db.items[i].message.clone();
                let priority = db.items[i].priority;
                let done = !db.items[i].done;
                db.items.set(i, TodoItemModel { id, message, priority, done });
                proof {
                    assert(db@.items =~= t0.items.update(
                        i as int,
                        ItemRow { done: !t0.items[i as int].done, ..t0.items[i as int] },
                    ));
                    assert(db@ =~= item_done_toggled(t0, id));
                    lemma_items_update_wf(t0, i as int, db@.items[i as int]);
                }
                Ok(())
            },
        }
    }

    /// Delete the item row keeping id `id`; succeeds (as a no-op) on a
    /// miss. The caller is responsible for removing dependent bindings first.
    #[verifier::loop_isolation(false)]
    pub fn remove(db: &mut Database, id: i32)
        requires
            old(db)@.wf(),
        ensures
            final(db)@.wf(),
            final(db)@ == item_removed(old(db)@, id),
            !has_item_id(final(db)@.items, id),
    {
        let ghost t0 = db@;
        let ghost pv = |it: ItemRow| it.id != id;
        let mut kept: Vec<TodoItemModel> = Vec::new();
        let mut i: usize = 0;
        proof {
            assert(item_rows(kept@) =~= t0.items.take(0).filter(pv)) by {
                reveal(Seq::filter);
            }
        }
        while i < db.items.len()
            invariant
                i <= db.items.len(),
                db@ == t0,
                item_rows(kept@) =~= t0.items.take(i as int).filter(pv),
            decreases db.items.len() - i,
        {
            proof {
                t0.items.lemma_take_succ_push(i as int);
                Seq::lemma_filter_push(t0.items.take(i as int), t0.items[i as int], pv);
            }
            if !(db.items[i].id == id) {
                kept.push(db.items[i].clone());
                proof {
                    assert(pv(t0.items[i as int]));
                    assert(item_rows(kept@) =~= t0.items.take(i as int + 1).filter(pv));
                }
            } else {
                proof {
                    assert(!pv(t0.items[i as int]));
                }
            }
            i = i + 1;
        }
        db.items = kept;
        proof {
            assert(t0.items.take(t0.items.len() as int) =~= t0.items);
            assert(db@ =~= item_removed(t0, id));
            lemma_items_filter_wf(t0.items, pv, t0.next_item_id);
            if has_item_id(db@.items, id) {
                let i = item_idx(db@.items, id);
                broadcast use Seq::lemma_filter_pred;

                assert(pv(db@.items[i]));
            }
        }
    }
}

/// Replacing a row with one that keeps its id preserves well-formedness.
proof fn lemma_items_update_wf(t: StoreView, i: int, row: ItemRow)
    requires
        t.wf(),
        0 <= i < t.items.len(),
        row.id == t.items[i].id,
    ensures
        (StoreView { items: t.items.update(i, row), ..t }).wf(),
{
    let upd = t.items.update(i, row);
    assert forall|a: int, b: int| #![trigger upd[a], upd[b]] 0 <= a < b < upd.len() implies upd[a].id
        != upd[b].id by {
        assert(t.items[a].id == upd[a].id && t.items[b].id == upd[b].id);
    }
    assert forall|a: int| #![trigger upd[a]] 0 <= a < upd.len() implies 1 <= upd[a].id && upd[a].id
        < t.next_item_id by {
        assert(t.items[a].id == upd[a].id);
    }
}

/// Distinctness and id bounds survive filtering the item table.
pub proof fn lemma_items_filter_wf(items: Seq<ItemRow>, p: spec_fn(ItemRow) -> bool, next: int)
    requires
        items_distinct(items),
        item_ids_bounded(items, next),
    ensures
        items_distinct(items.filter(p)),
        item_ids_bounded(items.filter(p), next),
{
    broadcast use Seq::lemma_filter_contains_rev;

    let flt = items.filter(p);
    assert(items.no_duplicates()) by {
        assert forall|i: int, j: int|
            0 <= i < items.len() && 0 <= j < items.len() && i != j implies items[i]
            != items[j] by {
            if i < j {
                assert(items[i].id != items[j].id);
            } else {
                assert(items[j].id != items[i].id);
            }
        }
    }
    lemma_filter_no_duplicates(items, p);
    assert forall|i: int, j: int| #![trigger flt[i], flt[j]] 0 <= i < j < flt.len() implies flt[i].id
        != flt[j].id by {
        assert(flt.contains(flt[i]));
        assert(flt.contains(flt[j]));
        let a = choose|a: int| 0 <= a < items.len() && items[a] == flt[i];
        let b = choose|b: int| 0 <= b < items.len() && items[b] == flt[j];
        assert(flt[i] != flt[j]);
        if a < b {
            assert(items[a].id != items[b].id);
        } else {
            assert(items[b].id != items[a].id);
        }
    }
    assert forall|i: int| #![trigger flt[i]] 0 <= i < flt.len() implies 1 <= flt[i].id && flt[i].id
        < next by {
        assert(flt.contains(flt[i]));
        let a = choose|a: int| 0 <= a < items.len() && items[a] == flt[i];
    }
}

/// Toggling the `done` flag twice restores the store exactly.
pub proof fn lemma_toggle_twice(t: StoreView, id: i32)
    requires
        t.wf(),
        has_item_id(t.items, id),
    ensures
        item_done_toggled(item_done_toggled(t, id), id) == t,
{
    let i = item_idx(t.items, id);
    let t1 = item_done_toggled(t, id);
    lemma_item_idx_unique(t1.items, i, id);
    assert(item_done_toggled(t1, id).items =~= t.items);
    assert(item_done_toggled(t1, id) =~= t);
}

} // verus!
