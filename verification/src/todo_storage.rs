//! Cross-table operations: create-with-tags, aggregated reads, and the
//! cascade rules that keep bindings consistent when tags or items go away.
//!
//! Writes resolve tags first, then write the item, then the bindings, so a
//! binding never references a row that has not been written yet. Deletes go
//! the other way: bindings first, then the row. Aggregated reads tolerate a
//! stale binding by dropping it rather than failing the whole fetch.

use vstd::prelude::*;

use crate::database::models::tag_item_bind::{
    bind_inserted, bind_removed, bind_rows, binds_inserted, binds_reference_rows,
    binds_removed_by_item, binds_removed_by_tag, has_bind, item_ids_for_tag,
    lemma_binds_inserted_contains, lemma_item_ids_for_tag_none, lemma_tag_ids_for_item_contains,
    tag_ids_for_item, BindEntity, BindModel, BindRow,
};
use crate::database::models::tags::{
    has_tag_id, has_tag_value, tag_created, tag_id_of, tag_idx, tag_idx_by_value, tag_removed,
    tag_renamed, tag_value_of, TagEntity, TagRow,
};
use crate::database::models::todo_item::{
    has_item_id, item_done_toggled, item_idx, item_message_updated, item_priority_updated,
    item_removed, item_rows, item_saved, ItemRow, TodoItemEntity,
};
use crate::database::priority::{level_to_priority, priority_to_level, Priority};
use crate::database::{Database, StoreError, StoreView};

verus! {

/// A tag is referred to by its value at this layer.
pub type Tag = String;

/// A todo item as callers see it: its fields together with its tag values.
#[derive(Debug, PartialEq)]
pub struct TodoItem {
    pub message: String,
    pub priority: PriorityLevel,
    pub done: bool,
    pub tags: Vec<Tag>,
}

/// A todo item's priority as callers name it, ordered from most to least
/// urgent; stored through the codec as [`Priority`].
#[derive(Clone, Copy, Debug, PartialEq, Eq, PartialOrd, Ord, Hash, Structural)]
pub enum PriorityLevel {
    VeryHigh,
    High,
    Medium,
    Low,
    VeryLow,
}

/// Whether to add or to remove one tag on one item.
#[derive(Clone, Copy, Debug, PartialEq, Eq, Structural)]
pub enum EditMode {
    Add,
    Remove,
}

/// The mathematical content of a [`TodoItem`].
#[verifier::ext_equal]
pub ghost struct TodoView {
    pub message: Seq<char>,
    pub priority: PriorityLevel,
    pub done: bool,
    pub tags: Seq<Seq<char>>,
}

/// The values of a sequence of strings.
pub open spec fn string_views(v: Seq<String>) -> Seq<Seq<char>> {
    v.map_values(|s: String| s@)
}

impl View for TodoItem {
    type V = TodoView;

    open spec fn view(&self) -> TodoView {
        TodoView {
            message: self.message@,
            priority: self.priority,
            done: self.done,
            tags: string_views(self.tags@),
        }
    }
}

/// Get-or-create applied to each name in input order, collecting the ids.
pub open spec fn tags_created(t: StoreView, names: Seq<Seq<char>>) -> (StoreView, Seq<i32>)
    decreases names.len(),
{
    if names.len() == 0 {
        (t, Seq::empty())
    } else {
        let (t1, ids) = tags_created(t, names.drop_last());
        let (t2, id) = tag_created(t1, names.last());
        (t2, ids.push(id))
    }
}

/// Each tag id paired with one item id, in order.
pub open spec fn pair_rows(ids: Seq<i32>, item_id: i32) -> Seq<BindRow> {
    ids.map_values(|tid: i32| BindRow { tag_id: tid, item_id })
}

/// Create-with-tags: get-or-create every tag, write the item, then bind
/// each resolved tag to the new item (duplicates collapse to one binding).
pub open spec fn full_item_saved(t: StoreView, v: TodoView) -> (StoreView, i32) {
    let (t1, ids) = tags_created(t, v.tags);
    let (t2, item_id) = item_saved(t1, v.message, level_to_priority(v.priority), v.done);
    (StoreView { binds: binds_inserted(t2.binds, pair_rows(ids, item_id)), ..t2 }, item_id)
}

/// Get-or-create one tag, then add or remove its binding to `item_id`.
pub open spec fn tag_edited(t: StoreView, item_id: i32, mode: EditMode, name: Seq<char>) -> (
    StoreView,
    i32,
) {
    let (t1, tag_id) = tag_created(t, name);
    let t2 = match mode {
        EditMode::Add => StoreView {
            binds: bind_inserted(t1.binds, BindRow { tag_id, item_id }),
            ..t1
        },
        EditMode::Remove => StoreView { binds: bind_removed(t1.binds, tag_id, item_id), ..t1 },
    };
    (t2, tag_id)
}

/// Delete-with-cascade for an item: its bindings go first, then the row.
pub open spec fn item_deleted(t: StoreView, item_id: i32) -> StoreView {
    item_removed(StoreView { binds: binds_removed_by_item(t.binds, item_id), ..t }, item_id)
}

/// Delete-with-cascade for a tag: its bindings go first, then the row.
/// Meaningful when `has_tag_value(t.tags, name)`.
pub open spec fn tag_deleted(t: StoreView, name: Seq<char>) -> StoreView {
    let id = tag_id_of(t.tags, name);
    tag_removed(StoreView { binds: binds_removed_by_tag(t.binds, id), ..t }, name)
}

/// The tag values `tids` resolve to, in order; an id that no longer
/// resolves (a stale binding) is dropped rather than failing the read.
pub open spec fn tag_names_resolved(tags: Seq<TagRow>, tids: Seq<i32>) -> Seq<Seq<char>>
    decreases tids.len(),
{
    if tids.len() == 0 {
        Seq::empty()
    } else {
        let rest = tag_names_resolved(tags, tids.drop_last());
        if has_tag_id(tags, tids.last()) {
            rest.push(tag_value_of(tags, tids.last()))
        } else {
            rest
        }
    }
}

/// The complete tag set of one item, in binding-table order.
pub open spec fn tags_of_item(t: StoreView, item_id: i32) -> Seq<Seq<char>> {
    tag_names_resolved(t.tags, tag_ids_for_item(t.binds, item_id))
}

/// One item row together with its complete, resolved tag set.
pub open spec fn item_with_tags(t: StoreView, it: ItemRow) -> TodoView {
    TodoView {
        message: it.message,
        priority: priority_to_level(it.priority),
        done: it.done,
        tags: tags_of_item(t, it.id),
    }
}

/// The item rows bound to `tag_id`, in item-table order.
pub open spec fn items_for_tag(t: StoreView, tag_id: i32) -> Seq<ItemRow> {
    t.items.filter(|it: ItemRow| item_ids_for_tag(t.binds, tag_id).contains(it.id))
}

/// The complete tag set of one item, resolved in binding-table order; a
/// stale binding is dropped rather than failing the read.
#[verifier::loop_isolation(false)]
fn tags_for_item(db: &Database, item_id: i32) -> (r: Vec<String>)
    requires
        db@.wf(),
    ensures
        string_views(r@) == tags_of_item(db@, item_id),
{
    let tids = BindEntity::fetch_all_tag_id(db, item_id);
    let mut out: Vec<String> = Vec::new();
    let mut j: usize = 0;
    while j < tids.len()
        invariant
            j <= tids.len(),
            string_views(out@) =~= tag_names_resolved(db@.tags, tids@.take(j as int)),
        decreases tids.len() - j,
    {
        proof {
            tids@.lemma_take_succ_push(j as int);
            assert(tids@.take(j as int + 1).drop_last() =~= tids@.take(j as int));
        }
        match TagEntity::find_by_id(db, tids[j]) {
            Ok(v) => {
                out.push(v);
                proof {
                    assert(string_views(out@) =~= tag_names_resolved(
                        db@.tags,
                        tids@.take(j as int + 1),
                    ));
                }
            },
            Err(_) => {},
        }
        j = j + 1;
    }
    proof {
        assert(tids@.take(tids@.len() as int) =~= tids@);
    }
    out
}

/// All items with their complete tag sets, in item-table order. A stale
/// binding is dropped; it never fails the whole fetch.
#[verifier::loop_isolation(false)]
pub fn fetch_all_todo_item(db: &Database) -> (r: Vec<(i32, TodoItem)>)
    requires
        db@.wf(),
    ensures
        r@.len() == db@.items.len(),
        forall|k: int|
            0 <= k < r@.len() ==> (#[trigger] r@[k]).0 == db@.items[k].id && r@[k].1@
                == item_with_tags(db@, db@.items[k]),
{
    let mut out: Vec<(i32, TodoItem)> = Vec::new();
    let mut i: usize = 0;
    while i < db.items.len()
        invariant
            i <= db.items.len(),
            out@.len() == i,
            forall|k: int|
                0 <= k < i ==> (#[trigger] out@[k]).0 == db@.items[k].id && out@[k].1@
                    == item_with_tags(db@, db@.items[k]),
        decreases db.items.len() - i,
    {
        let tags = tags_for_item(db, db.items[i].id);
        let entry = TodoItem {
            message: db.items[i].message.clone(),
            priority: db.items[i].priority.to_level(),
            done: db.items[i].done,
            tags,
        };
        proof {
            assert(entry@ =~= item_with_tags(db@, db@.items[i as int]));
        }
        out.push((db.items[i].id, entry));
        i = i + 1;
    }
    out
}

/// The items bound to `tag_id`, each with its complete tag set — not just
/// the queried tag — in item-table order.
#[verifier::loop_isolation(false)]
pub fn fetch_all_tag_todo_item(db: &Database, tag_id: i32) -> (r: Vec<(i32, TodoItem)>)
    requires
        db@.wf(),
    ensures
        r@.len() == items_for_tag(db@, tag_id).len(),
        forall|k: int|
            0 <= k < r@.len() ==> (#[trigger] r@[k]).0 == items_for_tag(db@, tag_id)[k].id
                && r@[k].1@ == item_with_tags(db@, items_for_tag(db@, tag_id)[k]),
{
    let item_ids = BindEntity::fetch_all_item_id(db, tag_id);
    let matched = TodoItemEntity::find_all_by_id(db, &item_ids);
    proof {
        crate::database::lemma_filter_congruence(
            db@.items,
            |it: ItemRow| item_ids@.contains(it.id),
            |it: ItemRow| item_ids_for_tag(db@.binds, tag_id).contains(it.id),
        );
        assert(item_rows(matched@) == items_for_tag(db@, tag_id));
    }
    let mut out: Vec<(i32, TodoItem)> = Vec::new();
    let mut i: usize = 0;
    while i < matched.len()
        invariant
            i <= matched.len(),
            item_rows(matched@) == items_for_tag(db@, tag_id),
            out@.len() == i,
            forall|k: int|
                0 <= k < i ==> (#[trigger] out@[k]).0 == items_for_tag(db@, tag_id)[k].id
                    && out@[k].1@ == item_with_tags(db@, items_for_tag(db@, tag_id)[k]),
        decreases matched.len() - i,
    {
        let tags = tags_for_item(db, matched[i].id);
        let entry = TodoItem {
            message: matched[i].message.clone(),
            priority: matched[i].priority.to_level(),
            done: matched[i].done,
            tags,
        };
        proof {
            assert(entry@ =~= item_with_tags(db@, items_for_tag(db@, tag_id)[i as int]));
        }
        out.push((matched[i].id, entry));
        i = i + 1;
    }
    out
}

/// Create one item together with its tags: get-or-create every tag name in
/// input order, write the item, then bind each resolved tag to it —
/// duplicate names in the input collapse to one binding. Returns the new
/// item's generated id.
#[verifier::loop_isolation(false)]
pub fn save_full_todo_item(db: &mut Database, item: TodoItem) -> (r: i32)
    requires
        old(db)@.wf(),
        old(db)@.next_tag_id + item@.tags.len() <= i32::MAX as int,
        old(db)@.can_add_item(),
    ensures
        final(db)@.wf(),
        final(db)@ == full_item_saved(old(db)@, item@).0,
        r == full_item_saved(old(db)@, item@).1,
        has_item_id(final(db)@.items, r),
{
    let ghost t0 = db@;
    let ghost iv = item@;
    let TodoItem { message, priority, done, tags } = item;
    let ghost names = iv.tags;
    let mut ids: Vec<i32> = Vec::new();
    let mut j: usize = 0;
    while j < tags.len()
        invariant
            j <= tags.len(),
            ids@.len() == j,
            db@ == tags_created(t0, names.take(j as int)).0,
            ids@ == tags_created(t0, names.take(j as int)).1,
            db@.wf(),
            db@.next_tag_id <= t0.next_tag_id + j,
            db@.items == t0.items,
            db@.binds == t0.binds,
            db@.next_item_id == t0.next_item_id,
            forall|k: int| 0 <= k < j ==> has_tag_id(db@.tags, #[trigger] ids@[k]),
        decreases tags.len() - j,
    {
        proof {
            names.lemma_take_succ_push(j as int);
            assert(names.take(j as int + 1).drop_last() =~= names.take(j as int));
            assert(names[j as int] == tags@[j as int]@);
        }
        let ghost before = db@;
        let ghost ids_before = ids@;
        let id = TagEntity::new(db, &tags[j]);
        ids.push(id);
        proof {
            assert(tags_created(t0, names.take(j as int + 1)).0 == tag_created(
                before,
                names[j as int],
            ).0);
            assert(tags_created(t0, names.take(j as int + 1)).1 == ids_before.push(
                tag_created(before, names[j as int]).1,
            ));
            assert forall|k: int| 0 <= k < j + 1 implies has_tag_id(
                db@.tags,
                #[trigger] ids@[k],
            ) by {
                if k < j {
                    let w = choose|w: int|
                        0 <= w < before.tags.len() && (#[trigger] before.tags[w]).id
                            == ids_before[k];
                    assert(db@.tags[w].id == ids@[k]);
                } else {
                    let w = tag_idx_by_value(db@.tags, names[j as int]);
                    assert(db@.tags[w].id == id);
                }
            }
        }
        j = j + 1;
    }
    proof {
        assert(names.take(names.len() as int) =~= names);
    }
    let ghost t1 = db@;
    let item_id = TodoItemEntity::save(db, message, Priority::from_level(priority), Some(done));
    let ghost t2 = db@;
    let mut peers: Vec<BindModel> = Vec::new();
    let mut k: usize = 0;
    while k < ids.len()
        invariant
            k <= ids.len(),
            bind_rows(peers@) =~= pair_rows(ids@.take(k as int), item_id),
        decreases ids.len() - k,
    {
        peers.push(BindModel::new(ids[k], item_id));
        proof {
            let target = pair_rows(ids@.take(k as int + 1), item_id);
            assert(bind_rows(peers@).len() == target.len());
            assert forall|m: int| 0 <= m < target.len() implies bind_rows(peers@)[m]
                == target[m] by {
                assert(target[m] == (BindRow { tag_id: ids@.take(k as int + 1)[m], item_id }));
                if m < k {
                    assert(bind_rows(peers@)[m] == pair_rows(ids@.take(k as int), item_id)[m]);
                }
            }
            assert(bind_rows(peers@) =~= target);
        }
        k = k + 1;
    }
    proof {
        assert(ids@.take(ids@.len() as int) =~= ids@);
        assert(bind_rows(peers@) =~= pair_rows(ids@, item_id));
        assert(binds_reference_rows(bind_rows(peers@), t2)) by {
            assert forall|m: int| 0 <= m < bind_rows(peers@).len() implies has_tag_id(
                t2.tags,
                (#[trigger] bind_rows(peers@)[m]).tag_id,
            ) && has_item_id(t2.items, bind_rows(peers@)[m].item_id) by {
                assert(bind_rows(peers@)[m].tag_id == ids@[m]);
                assert(has_tag_id(t1.tags, ids@[m]));
            }
        }
    }
    BindEntity::save_all(db, peers);
    proof {
        assert(db@ =~= full_item_saved(t0, iv).0);
        assert(has_item_id(db@.items, item_id)) by {
            let w = item_idx(t2.items, item_id);
            assert(db@.items[w].id == item_id);
        }
    }
    item_id
}

/// Replace the message of one item; fails with `NotFound` when the id is
/// absent.
pub fn edit_message(db: &mut Database, item_id: i32, new_message: String) -> (r: Result<
    (),
    StoreError,
>)
    requires
        old(db)@.wf(),
    ensures
        final(db)@.wf(),
        has_item_id(old(db)@.items, item_id) ==> r == Ok::<(), StoreError>(()) && final(db)@
            == item_message_updated(old(db)@, item_id, new_message@),
        !has_item_id(old(db)@.items, item_id) ==> r == Err::<(), StoreError>(StoreError::NotFound)
            && final(db)@ == old(db)@,
{
    TodoItemEntity::update_message(db, item_id, new_message)
}

/// Replace the priority of one item; fails with `NotFound` when the id is
/// absent.
pub fn edit_priority(db: &mut Database, item_id: i32, priority: PriorityLevel) -> (r: Result<
    (),
    StoreError,
>)
    requires
        old(db)@.wf(),
    ensures
        final(db)@.wf(),
        has_item_id(old(db)@.items, item_id) ==> r == Ok::<(), StoreError>(()) && final(db)@
            == item_priority_updated(old(db)@, item_id, level_to_priority(priority)),
        !has_item_id(old(db)@.items, item_id) ==> r == Err::<(), StoreError>(StoreError::NotFound)
            && final(db)@ == old(db)@,
{
    TodoItemEntity::update_priority(db, item_id, Priority::from_level(priority))
}

/// Flip the `done` flag of one item in place; fails with `NotFound` when
/// the id is absent.
pub fn state_revert(db: &mut Database, item_id: i32) -> (r: Result<(), StoreError>)
    requires
        old(db)@.wf(),
    ensures
        final(db)@.wf(),
        has_item_id(old(db)@.items, item_id) ==> r == Ok::<(), StoreError>(()) && final(db)@
            == item_done_toggled(old(db)@, item_id),
        !has_item_id(old(db)@.items, item_id) ==> r == Err::<(), StoreError>(StoreError::NotFound)
            && final(db)@ == old(db)@,
{
    TodoItemEntity::revert_done(db, item_id)
}

/// Remove every binding on one item; the tags themselves persist.
pub fn clean_tag(db: &mut Database, item_id: i32)
    requires
        old(db)@.wf(),
    ensures
        final(db)@.wf(),
        final(db)@ == (StoreView {
            binds: binds_removed_by_item(old(db)@.binds, item_id),
            ..old(db)@
        }),
{
    BindEntity::remove_bind_item_id(db, item_id);
}

/// Delete one item with cascade: its bindings are removed first, so no
/// binding is left referencing the deleted id. A miss deletes nothing.
pub fn delete_todo_item(db: &mut Database, item_id: i32)
    requires
        old(db)@.wf(),
    ensures
        final(db)@.wf(),
        final(db)@ == item_deleted(old(db)@, item_id),
        !has_item_id(final(db)@.items, item_id),
        forall|k: int|
            0 <= k < final(db)@.binds.len() ==> (#[trigger] final(db)@.binds[k]).item_id
                != item_id,
{
    clean_tag(db, item_id);
    TodoItemEntity::remove(db, item_id);
}

/// All tags, paired as `(id, value)` in table order.
#[verifier::loop_isolation(false)]
pub fn fetch_all_tags(db: &Database) -> (r: Vec<(i32, String)>)
    ensures
        r@.len() == db@.tags.len(),
        forall|k: int|
            0 <= k < r@.len() ==> (#[trigger] r@[k]).0 == db@.tags[k].id && r@[k].1@
                == db@.tags[k].value,
{
    let mut out: Vec<(i32, String)> = Vec::new();
    let mut i: usize = 0;
    while i < db.tags.len()
        invariant
            i <= db.tags.len(),
            out@.len() == i,
            forall|k: int|
                0 <= k < i ==> (#[trigger] out@[k]).0 == db@.tags[k].id && out@[k].1@
                    == db@.tags[k].value,
        decreases db.tags.len() - i,
    {
        out.push((db.tags[i].id, db.tags[i].value.clone()));
        i = i + 1;
    }
    out
}

/// Rename one tag, preserving its id and therefore all its bindings. Fails
/// with `NotFound` when the id is absent and with `DuplicateName` when
/// another tag already carries the value.
pub fn rename_tag(db: &mut Database, tag_id: i32, tag_name: Tag) -> (r: Result<(), StoreError>)
    requires
        old(db)@.wf(),
    ensures
        final(db)@.wf(),
        !has_tag_id(old(db)@.tags, tag_id) ==> r == Err::<(), StoreError>(StoreError::NotFound)
            && final(db)@ == old(db)@,
        has_tag_id(old(db)@.tags, tag_id) && has_tag_value(old(db)@.tags, tag_name@) && tag_id_of(
            old(db)@.tags,
            tag_name@,
        ) != tag_id ==> r == Err::<(), StoreError>(StoreError::DuplicateName) && final(db)@ == old(
            db,
        )@,
        has_tag_id(old(db)@.tags, tag_id) && (!has_tag_value(old(db)@.tags, tag_name@)
            || tag_id_of(old(db)@.tags, tag_name@) == tag_id) ==> r == Ok::<(), StoreError>(())
            && final(db)@ == tag_renamed(old(db)@, tag_id, tag_name@),
{
    TagEntity::edit(db, tag_id, &tag_name)
}

/// Get-or-create one tag by value; returns its id either way.
pub fn create_tag(db: &mut Database, tag_name: Tag) -> (r: i32)
    requires
        old(db)@.wf(),
        old(db)@.can_add_tag(),
    ensures
        final(db)@.wf(),
        final(db)@ == tag_created(old(db)@, tag_name@).0,
        r == tag_created(old(db)@, tag_name@).1,
        has_tag_value(final(db)@.tags, tag_name@),
        r == tag_id_of(final(db)@.tags, tag_name@),
{
    TagEntity::new(db, &tag_name)
}

/// Look up a tag id by exact value match; fails with `NotFound` when the
/// value is absent. Never creates.
pub fn get_tag_id(db: &Database, tag_name: Tag) -> (r: Result<i32, StoreError>)
    requires
        db@.wf(),
    ensures
        has_tag_value(db@.tags, tag_name@) ==> r == Ok::<i32, StoreError>(
            tag_id_of(db@.tags, tag_name@),
        ),
        !has_tag_value(db@.tags, tag_name@) ==> r == Err::<i32, StoreError>(StoreError::NotFound),
{
    TagEntity::get_id(db, &tag_name)
}

/// Add or remove one tag on one item. The tag is resolved get-or-create in
/// both modes, so removing an unbound tag still resolves it (a no-op
/// delete); the tag id is returned either way. Adding binds the pair
/// idempotently.
pub fn edit_tag(db: &mut Database, item_id: i32, mode: EditMode, tag_name: Tag) -> (r: i32)
    requires
        old(db)@.wf(),
        old(db)@.can_add_tag(),
        mode is Add ==> has_item_id(old(db)@.items, item_id),
    ensures
        final(db)@.wf(),
        final(db)@ == tag_edited(old(db)@, item_id, mode, tag_name@).0,
        r == tag_edited(old(db)@, item_id, mode, tag_name@).1,
        mode is Add ==> has_bind(final(db)@.binds, r, item_id),
        mode is Remove ==> !has_bind(final(db)@.binds, r, item_id),
{
    let ghost t0 = db@;
    let tag_id = TagEntity::new(db, &tag_name);
    let ghost t1 = db@;
    match mode {
        EditMode::Add => {
            let mut peers: Vec<BindModel> = Vec::new();
            peers.push(BindModel::new(tag_id, item_id));
            proof {
                assert(bind_rows(peers@) =~= seq![BindRow { tag_id, item_id }]);
                assert(binds_reference_rows(bind_rows(peers@), t1)) by {
                    assert(has_item_id(t1.items, item_id));
                }
            }
            BindEntity::save_all(db, peers);
            proof {
                let single = seq![BindRow { tag_id, item_id }];
                assert(single.drop_last() =~= Seq::<BindRow>::empty());
                assert(binds_inserted(t1.binds, single.drop_last()) == t1.binds);
                assert(binds_inserted(t1.binds, single) == bind_inserted(
                    t1.binds,
                    BindRow { tag_id, item_id },
                ));
                assert(db@ =~= tag_edited(t0, item_id, mode, tag_name@).0);
                assert(db@.binds.contains(BindRow { tag_id, item_id }));
            }
        },
        EditMode::Remove => {
            BindEntity::remove(db, tag_id, item_id);
            proof {
                assert(db@ =~= tag_edited(t0, item_id, mode, tag_name@).0);
            }
        },
    }
    tag_id
}

/// Delete one tag by value with cascade: its bindings are removed first,
/// so no binding is left referencing the deleted id. Fails with `NotFound`
/// when the value is absent, leaving the store unchanged.
pub fn delete_tag(db: &mut Database, tag_name: Tag) -> (r: Result<(), StoreError>)
    requires
        old(db)@.wf(),
    ensures
        final(db)@.wf(),
        !has_tag_value(old(db)@.tags, tag_name@) ==> r == Err::<(), StoreError>(
            StoreError::NotFound,
        ) && final(db)@ == old(db)@,
        has_tag_value(old(db)@.tags, tag_name@) ==> r == Ok::<(), StoreError>(()) && final(db)@
            == tag_deleted(old(db)@, tag_name@) && !has_tag_value(final(db)@.tags, tag_name@)
            && (forall|k: int|
            0 <= k < final(db)@.binds.len() ==> (#[trigger] final(db)@.binds[k]).tag_id
                != tag_id_of(old(db)@.tags, tag_name@)),
{
    let tag_id = match TagEntity::get_id(db, &tag_name) {
        Ok(id) => id,
        Err(e) => {
            return Err(e);
        },
    };
    BindEntity::remove_bind_tag_id(db, tag_id);
    TagEntity::remove(db, &tag_name);
    Ok(())
}

/// What get-or-create over a whole name list guarantees: the store stays
/// well-formed, only the tag table and its counter move, and each returned
/// id resolves to its name once all names are in.
pub proof fn lemma_tags_created_props(t: StoreView, names: Seq<Seq<char>>)
    requires
        t.wf(),
        t.next_tag_id + names.len() <= i32::MAX as int,
    ensures
        ({
            let (t1, ids) = tags_created(t, names);
            &&& t1.wf()
            &&& t1.items == t.items
            &&& t1.binds == t.binds
            &&& t1.next_item_id == t.next_item_id
            &&& t.next_tag_id <= t1.next_tag_id <= t.next_tag_id + names.len()
            &&& ids.len() == names.len()
            &&& forall|k: int|
                0 <= k < names.len() ==> has_tag_id(t1.tags, #[trigger] ids[k]) && tag_value_of(
                    t1.tags,
                    ids[k],
                ) == names[k]
            &&& forall|x: i32| #[trigger] has_tag_id(t.tags, x) ==> has_tag_id(t1.tags, x)
        }),
    decreases names.len(),
{
    if names.len() > 0 {
        let rest = names.drop_last();
        lemma_tags_created_props(t, rest);
        let (ta, ids0) = tags_created(t, rest);
        crate::database::models::tags::lemma_tag_created_props(ta, names.last());
        let (t1, id) = tag_created(ta, names.last());
        let ids = ids0.push(id);
        assert forall|k: int| 0 <= k < names.len() implies has_tag_id(t1.tags, #[trigger] ids[k])
            && tag_value_of(t1.tags, ids[k]) == names[k] by {
            if k < names.len() - 1 {
                assert(ids[k] == ids0[k]);
                assert(has_tag_id(ta.tags, ids0[k]));
            }
        }
    }
}

/// A value stands among the resolved names iff some listed id resolves to it.
pub proof fn lemma_tag_names_resolved_contains(tags: Seq<TagRow>, tids: Seq<i32>, n: Seq<char>)
    ensures
        tag_names_resolved(tags, tids).contains(n) <==> (exists|k: int|
            0 <= k < tids.len() && has_tag_id(tags, #[trigger] tids[k]) && tag_value_of(
                tags,
                tids[k],
            ) == n),
    decreases tids.len(),
{
    if tids.len() > 0 {
        let rest = tids.drop_last();
        let last = tids.last();
        lemma_tag_names_resolved_contains(tags, rest, n);
        let out = tag_names_resolved(tags, tids);
        let rest_out = tag_names_resolved(tags, rest);
        if exists|k: int|
            0 <= k < tids.len() && has_tag_id(tags, #[trigger] tids[k]) && tag_value_of(
                tags,
                tids[k],
            ) == n {
            let k = choose|k: int|
                0 <= k < tids.len() && has_tag_id(tags, #[trigger] tids[k]) && tag_value_of(
                    tags,
                    tids[k],
                ) == n;
            if k < tids.len() - 1 {
                assert(rest[k] == tids[k]);
                let m = choose|m: int| 0 <= m < rest_out.len() && rest_out[m] == n;
                if has_tag_id(tags, last) {
                    assert(out[m] == n);
                } else {
                    assert(out[m] == n);
                }
            } else {
                assert(out.last() == n);
            }
        }
        if out.contains(n) {
            let m = choose|m: int| 0 <= m < out.len() && out[m] == n;
            if has_tag_id(tags, last) && m == out.len() - 1 {
                assert(tids[tids.len() - 1] == last);
            } else {
                assert(rest_out[m] == n);
                let k = choose|k: int|
                    0 <= k < rest.len() && has_tag_id(tags, #[trigger] rest[k]) && tag_value_of(
                        tags,
                        rest[k],
                    ) == n;
                assert(tids[k] == rest[k]);
            }
        }
    }
}

/// Tag aggregation is complete: after create-with-tags, the stored item's
/// resolved tag set is exactly the set of names it was created with —
/// whatever order they come back in, and however the input repeated them.
pub proof fn lemma_create_with_tags_complete(t: StoreView, v: TodoView)
    requires
        t.wf(),
        t.next_tag_id + v.tags.len() <= i32::MAX as int,
        t.next_item_id < i32::MAX as int,
    ensures
        ({
            let (t1, id) = full_item_saved(t, v);
            tags_of_item(t1, id).to_set() == v.tags.to_set()
        }),
{
    lemma_tags_created_props(t, v.tags);
    let (ta, ids) = tags_created(t, v.tags);
    let (tb, item_id) = item_saved(ta, v.message, level_to_priority(v.priority), v.done);
    let pairs = pair_rows(ids, item_id);
    let tfin = StoreView { binds: binds_inserted(tb.binds, pairs), ..tb };
    assert(tfin == full_item_saved(t, v).0 && item_id == full_item_saved(t, v).1);
    assert(tfin.tags == ta.tags && tb.binds == ta.binds);
    let tidseq = tag_ids_for_item(tfin.binds, item_id);
    assert forall|n: Seq<char>| #[trigger]
        tags_of_item(tfin, item_id).contains(n) <==> v.tags.contains(n) by {
        lemma_tag_names_resolved_contains(tfin.tags, tidseq, n);
        if v.tags.contains(n) {
            let k = choose|k: int| 0 <= k < v.tags.len() && v.tags[k] == n;
            assert(pairs[k] == (BindRow { tag_id: ids[k], item_id }));
            assert(pairs.contains(BindRow { tag_id: ids[k], item_id }));
            lemma_binds_inserted_contains(
                tb.binds,
                pairs,
                BindRow { tag_id: ids[k], item_id },
            );
            lemma_tag_ids_for_item_contains(tfin.binds, item_id, ids[k]);
            let m = choose|m: int| 0 <= m < tidseq.len() && tidseq[m] == ids[k];
            assert(has_tag_id(tfin.tags, tidseq[m]) && tag_value_of(tfin.tags, tidseq[m]) == n);
        }
        if tags_of_item(tfin, item_id).contains(n) {
            let k = choose|k: int|
                0 <= k < tidseq.len() && has_tag_id(tfin.tags, #[trigger] tidseq[k])
                    && tag_value_of(tfin.tags, tidseq[k]) == n;
            let x = tidseq[k];
            lemma_tag_ids_for_item_contains(tfin.binds, item_id, x);
            let row = BindRow { tag_id: x, item_id };
            lemma_binds_inserted_contains(tb.binds, pairs, row);
            if ta.binds.contains(row) {
                let w = choose|w: int| 0 <= w < ta.binds.len() && ta.binds[w] == row;
                assert(ta.binds[w].item_id < ta.next_item_id);
            }
            assert(pairs.contains(row));
            let m = choose|m: int| 0 <= m < pairs.len() && pairs[m] == row;
            assert(ids[m] == x);
            assert(tag_value_of(ta.tags, ids[m]) == v.tags[m]);
        }
    }
    assert(tags_of_item(tfin, item_id).to_set() =~= v.tags.to_set());
}

/// Referential integrity as the cross-table operations maintain it: every
/// binding references a live tag row and a live item row. The raw
/// per-table removals can break this — an aggregated read then drops the
/// stale binding — but each operation below is proved to keep it.
pub open spec fn bindings_resolve(t: StoreView) -> bool {
    forall|k: int|
        0 <= k < t.binds.len() ==> has_tag_id(t.tags, (#[trigger] t.binds[k]).tag_id)
            && has_item_id(t.items, t.binds[k].item_id)
}

/// Dropping bindings alone never breaks resolution.
pub proof fn lemma_fewer_bindings_keep_resolution(t: StoreView, p: spec_fn(BindRow) -> bool)
    requires
        bindings_resolve(t),
    ensures
        bindings_resolve(StoreView { binds: t.binds.filter(p), ..t }),
{
    broadcast use Seq::lemma_filter_contains_rev;

    let flt = t.binds.filter(p);
    assert forall|k: int| 0 <= k < flt.len() implies has_tag_id(t.tags, (#[trigger] flt[k]).tag_id)
        && has_item_id(t.items, flt[k].item_id) by {
        assert(flt.contains(flt[k]));
        let a = choose|a: int| 0 <= a < t.binds.len() && t.binds[a] == flt[k];
    }
}

/// Create-with-tags keeps every binding resolving: tags are resolved and
/// the item written before any binding references them.
pub proof fn lemma_create_with_tags_keeps_resolution(t: StoreView, v: TodoView)
    requires
        t.wf(),
        bindings_resolve(t),
        t.next_tag_id + v.tags.len() <= i32::MAX as int,
        t.next_item_id < i32::MAX as int,
    ensures
        bindings_resolve(full_item_saved(t, v).0),
{
    lemma_tags_created_props(t, v.tags);
    let (ta, ids) = tags_created(t, v.tags);
    let (tb, item_id) = item_saved(ta, v.message, level_to_priority(v.priority), v.done);
    let pairs = pair_rows(ids, item_id);
    let tfin = full_item_saved(t, v).0;
    let n = ta.items.len() as int;
    assert(tb.items[n].id == item_id);
    assert forall|k: int| 0 <= k < tfin.binds.len() implies has_tag_id(
        tfin.tags,
        (#[trigger] tfin.binds[k]).tag_id,
    ) && has_item_id(tfin.items, tfin.binds[k].item_id) by {
        let b = tfin.binds[k];
        assert(tfin.binds.contains(b));
        lemma_binds_inserted_contains(tb.binds, pairs, b);
        if ta.binds.contains(b) {
            let a = choose|a: int| 0 <= a < t.binds.len() && t.binds[a] == b;
            assert(has_tag_id(t.tags, b.tag_id) && has_item_id(t.items, b.item_id));
            let w = item_idx(t.items, b.item_id);
            assert(tb.items[w].id == b.item_id);
        } else {
            let m = choose|m: int| 0 <= m < pairs.len() && pairs[m] == b;
            assert(b.tag_id == ids[m] && b.item_id == item_id);
        }
    }
}

/// Adding or removing one tag on one existing item keeps every binding
/// resolving.
pub proof fn lemma_edit_tag_keeps_resolution(
    t: StoreView,
    item_id: i32,
    mode: EditMode,
    name: Seq<char>,
)
    requires
        t.wf(),
        bindings_resolve(t),
        t.next_tag_id < i32::MAX as int,
        mode is Add ==> has_item_id(t.items, item_id),
    ensures
        bindings_resolve(tag_edited(t, item_id, mode, name).0),
{
    crate::database::models::tags::lemma_tag_created_props(t, name);
    let (t1, tag_id) = tag_created(t, name);
    assert(bindings_resolve(t1)) by {
        assert forall|k: int| 0 <= k < t1.binds.len() implies has_tag_id(
            t1.tags,
            (#[trigger] t1.binds[k]).tag_id,
        ) && has_item_id(t1.items, t1.binds[k].item_id) by {
            assert(t.binds[k] == t1.binds[k]);
        }
    }
    match mode {
        EditMode::Add => {
            let ext = bind_inserted(t1.binds, BindRow { tag_id, item_id });
            assert forall|k: int| 0 <= k < ext.len() implies has_tag_id(
                t1.tags,
                (#[trigger] ext[k]).tag_id,
            ) && has_item_id(t1.items, ext[k].item_id) by {
                if k < t1.binds.len() {
                    assert(ext[k] == t1.binds[k]);
                }
            }
        },
        EditMode::Remove => {
            lemma_fewer_bindings_keep_resolution(
                t1,
                |b: BindRow| b != (BindRow { tag_id, item_id }),
            );
        },
    }
}

/// Deleting an item with cascade keeps every remaining binding resolving.
pub proof fn lemma_delete_item_keeps_resolution(t: StoreView, item_id: i32)
    requires
        t.wf(),
        bindings_resolve(t),
    ensures
        bindings_resolve(item_deleted(t, item_id)),
{
    broadcast use Seq::lemma_filter_contains_rev;
    broadcast use Seq::lemma_filter_pred;
    broadcast use Seq::lemma_filter_contains;

    let t1 = item_deleted(t, item_id);
    assert forall|k: int| 0 <= k < t1.binds.len() implies has_tag_id(
        t1.tags,
        (#[trigger] t1.binds[k]).tag_id,
    ) && has_item_id(t1.items, t1.binds[k].item_id) by {
        let b = t1.binds[k];
        assert(t1.binds.contains(b));
        let a = choose|a: int| 0 <= a < t.binds.len() && t.binds[a] == b;
        assert(b.item_id != item_id);
        let w = item_idx(t.items, b.item_id);
        assert(t.items[w].id == b.item_id);
        assert(t1.items.contains(t.items[w]));
        let u = choose|u: int| 0 <= u < t1.items.len() && t1.items[u] == t.items[w];
    }
}

/// Deleting a tag with cascade keeps every remaining binding resolving.
pub proof fn lemma_delete_tag_keeps_resolution(t: StoreView, name: Seq<char>)
    requires
        t.wf(),
        bindings_resolve(t),
        has_tag_value(t.tags, name),
    ensures
        bindings_resolve(tag_deleted(t, name)),
{
    broadcast use Seq::lemma_filter_contains_rev;
    broadcast use Seq::lemma_filter_pred;
    broadcast use Seq::lemma_filter_contains;

    let id = tag_id_of(t.tags, name);
    let t1 = tag_deleted(t, name);
    assert forall|k: int| 0 <= k < t1.binds.len() implies has_tag_id(
        t1.tags,
        (#[trigger] t1.binds[k]).tag_id,
    ) && has_item_id(t1.items, t1.binds[k].item_id) by {
        let b = t1.binds[k];
        assert(t1.binds.contains(b));
        let a = choose|a: int| 0 <= a < t.binds.len() && t.binds[a] == b;
        assert(b.tag_id != id);
        let w = tag_idx(t.tags, b.tag_id);
        assert(t.tags[w].id == b.tag_id);
        assert(t.tags[w].value != name) by {
            if t.tags[w].value == name {
                crate::database::models::tags::lemma_tag_idx_by_value_unique(t.tags, w, name);
            }
        }
        assert(t1.tags.contains(t.tags[w]));
        let u = choose|u: int| 0 <= u < t1.tags.len() && t1.tags[u] == t.tags[w];
    }
}

/// Renaming a tag preserves its id and therefore every binding: the items
/// resolved for that id afterwards are exactly those resolved before, and
/// the id now carries the new value.
pub proof fn lemma_rename_preserves_bindings(t: StoreView, id: i32, name: Seq<char>)
    requires
        t.wf(),
        has_tag_id(t.tags, id),
        !has_tag_value(t.tags, name) || tag_id_of(t.tags, name) == id,
    ensures
        tag_renamed(t, id, name).binds == t.binds,
        tag_renamed(t, id, name).items == t.items,
        has_tag_id(tag_renamed(t, id, name).tags, id),
        tag_value_of(tag_renamed(t, id, name).tags, id) == name,
        items_for_tag(tag_renamed(t, id, name), id) == items_for_tag(t, id),
{
    crate::database::models::tags::lemma_tag_renamed_wf(t, id, name);
    let t1 = tag_renamed(t, id, name);
    let i = tag_idx(t.tags, id);
    assert(0 <= i < t.tags.len() && t.tags[i].id == id);
    assert(t1.tags[i] == (TagRow { id, value: name }));
    crate::database::models::tags::lemma_tag_idx_unique(t1.tags, i, id);
    crate::database::lemma_filter_congruence(
        t1.items,
        |it: ItemRow| item_ids_for_tag(t1.binds, id).contains(it.id),
        |it: ItemRow| item_ids_for_tag(t.binds, id).contains(it.id),
    );
}

/// Deleting a tag cascades: afterwards no binding references its old id,
/// no item resolves for it, and its value no longer exists.
pub proof fn lemma_delete_tag_cascades(t: StoreView, name: Seq<char>)
    requires
        t.wf(),
        has_tag_value(t.tags, name),
    ensures
        ({
            let id = tag_id_of(t.tags, name);
            let t1 = tag_deleted(t, name);
            &&& item_ids_for_tag(t1.binds, id).len() == 0
            &&& items_for_tag(t1, id).len() == 0
            &&& !has_tag_value(t1.tags, name)
            &&& !has_tag_id(t1.tags, id)
        }),
{
    broadcast use Seq::lemma_filter_pred;
    broadcast use Seq::lemma_filter_contains_rev;

    let id = tag_id_of(t.tags, name);
    let t1 = tag_deleted(t, name);
    let i = tag_idx_by_value(t.tags, name);
    assert(0 <= i < t.tags.len() && t.tags[i].value == name && t.tags[i].id == id);
    assert forall|k: int| 0 <= k < t1.binds.len() implies (#[trigger] t1.binds[k]).tag_id
        != id by {}
    lemma_item_ids_for_tag_none(t1.binds, id);
    assert forall|k: int| 0 <= k < t1.items.len() implies !item_ids_for_tag(
        t1.binds,
        id,
    ).contains((#[trigger] t1.items[k]).id) by {}
    crate::database::lemma_filter_none(
        t1.items,
        |it: ItemRow| item_ids_for_tag(t1.binds, id).contains(it.id),
    );
    if has_tag_id(t1.tags, id) {
        let k = tag_idx(t1.tags, id);
        assert(t1.tags.contains(t1.tags[k]));
        let a = choose|a: int| 0 <= a < t.tags.len() && t.tags[a] == t1.tags[k];
        if a != i {
            assert(t.tags[a].id != t.tags[i].id || t.tags[i].id != t.tags[a].id);
            if a < i {
                assert(t.tags[a].id != t.tags[i].id);
            } else {
                assert(t.tags[i].id != t.tags[a].id);
            }
        }
        assert(t1.tags[k].value == name);
        assert(t1.tags[k].value != name);
    }
}

} // verus!

