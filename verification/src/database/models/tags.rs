//! The tag relation: `{id, value}` rows with unique ids and unique values.

use vstd::prelude::*;

use crate::database::{
    contains_id, fetch_count, lemma_filter_no_duplicates, lemma_filter_none,
    lemma_filter_singleton, Database, StoreError, StoreView,
};

verus! {

/// One row of the tag relation.
#[derive(Debug, PartialEq)]
pub struct TagModel {
    pub id: i32,
    pub value: String,
}

/// The mathematical content of a [`TagModel`] row.
#[verifier::ext_equal]
pub ghost struct TagRow {
    pub id: i32,
    pub value: Seq<char>,
}

impl View for TagModel {
    type V = TagRow;

    open spec fn view(&self) -> TagRow {
        TagRow { id: self.id, value: self.value@ }
    }
}

impl Clone for TagModel {
    fn clone(&self) -> (res: Self)
        ensures
            res@ == self@,
    {
        TagModel { id: self.id, value: self.value.clone() }
    }
}

/// The rows of a tag table, viewed mathematically.
pub open spec fn tag_rows(v: Seq<TagModel>) -> Seq<TagRow> {
    v.map_values(|t: TagModel| t@)
}

/// No two rows share an id, and no two rows share a value.
pub open spec fn tags_distinct(tags: Seq<TagRow>) -> bool {
    forall|i: int, j: int| #![trigger tags[i], tags[j]]
        0 <= i < j < tags.len() ==> tags[i].id != tags[j].id && tags[i].value != tags[j].value
}

/// Every row id was handed out by the counter: in `1..next`.
pub open spec fn tag_ids_bounded(tags: Seq<TagRow>, next: int) -> bool {
    forall|i: int| #![trigger tags[i]]
        0 <= i < tags.len() ==> 1 <= tags[i].id && tags[i].id < next
}

/// Some row carries this id.
pub open spec fn has_tag_id(tags: Seq<TagRow>, id: i32) -> bool {
    exists|i: int| 0 <= i < tags.len() && (#[trigger] tags[i]).id == id
}

/// The index of the row with this id; meaningful when `has_tag_id`.
pub open spec fn tag_idx(tags: Seq<TagRow>, id: i32) -> int {
    choose|i: int| 0 <= i < tags.len() && (#[trigger] tags[i]).id == id
}

/// The value of the row with this id; meaningful when `has_tag_id`.
pub open spec fn tag_value_of(tags: Seq<TagRow>, id: i32) -> Seq<char> {
    tags[tag_idx(tags, id)].value
}

/// Some row carries this value.
pub open spec fn has_tag_value(tags: Seq<TagRow>, name: Seq<char>) -> bool {
    exists|i: int| 0 <= i < tags.len() && (#[trigger] tags[i]).value == name
}

/// The index of the row with this value; meaningful when `has_tag_value`.
pub open spec fn tag_idx_by_value(tags: Seq<TagRow>, name: Seq<char>) -> int {
    choose|i: int| 0 <= i < tags.len() && (#[trigger] tags[i]).value == name
}

/// The id of the row with this value; meaningful when `has_tag_value`.
pub open spec fn tag_id_of(tags: Seq<TagRow>, name: Seq<char>) -> i32 {
    tags[tag_idx_by_value(tags, name)].id
}

/// In a table with distinct ids, the row index of an id is unique.
pub proof fn lemma_tag_idx_unique(tags: Seq<TagRow>, i: int, id: i32)
    requires
        tags_distinct(tags),
        0 <= i < tags.len(),
        tags[i].id == id,
    ensures
        has_tag_id(tags, id),
        tag_idx(tags, id) == i,
{
    let j = tag_idx(tags, id);
    assert(0 <= j < tags.len() && tags[j].id == id);
    if i != j {
        assert(tags[i].id != tags[j].id);
    }
}

/// In a table with distinct values, the row index of a value is unique.
pub proof fn lemma_tag_idx_by_value_unique(tags: Seq<TagRow>, i: int, name: Seq<char>)
    requires
        tags_distinct(tags),
        0 <= i < tags.len(),
        tags[i].value == name,
    ensures
        has_tag_value(tags, name),
        tag_idx_by_value(tags, name) == i,
        tag_id_of(tags, name) == tags[i].id,
{
    let j = tag_idx_by_value(tags, name);
    assert(0 <= j < tags.len() && tags[j].value == name);
    if i != j {
        assert(tags[i].value != tags[j].value);
    }
}

/// Get-or-create: reuse the row carrying `name`, else append a fresh row
/// under the next generated id. Returns the new store and the id either way.
pub open spec fn tag_created(t: StoreView, name: Seq<char>) -> (StoreView, i32) {
    if has_tag_value(t.tags, name) {
        (t, tag_id_of(t.tags, name))
    } else {
        (
            StoreView {
                tags: t.tags.push(TagRow { id: t.next_tag_id as i32, value: name }),
                next_tag_id: t.next_tag_id + 1,
                ..t
            },
            t.next_tag_id as i32,
        )
    }
}

/// Rename: the row keeping id `id` carries `name` afterwards; everything
/// else is untouched. Meaningful when `has_tag_id(t.tags, id)`.
pub open spec fn tag_renamed(t: StoreView, id: i32, name: Seq<char>) -> StoreView {
    StoreView { tags: t.tags.update(tag_idx(t.tags, id), TagRow { id, value: name }), ..t }
}

/// Removal by value: the row carrying `name` is gone; everything else is
/// untouched. A miss removes nothing.
pub open spec fn tag_removed(t: StoreView, name: Seq<char>) -> StoreView {
    StoreView { tags: t.tags.filter(|tg: TagRow| tg.value != name), ..t }
}

/// The tag store: CRUD over the tag relation.
pub struct TagEntity;

impl TagEntity {
    /// The index of the row carrying `name`, scanning in table order.
    fn position_by_value(tags: &Vec<TagModel>, name: &String) -> (r: Option<usize>)
        ensures
            match r {
                Some(i) => i < tags.len() && tag_rows(tags@)[i as int].value == name@,
                None => !has_tag_value(tag_rows(tags@), name@),
            },
    {
        let mut i: usize = 0;
        while i < tags.len()
            invariant
                i <= tags.len(),
                forall|k: int| 0 <= k < i ==> tag_rows(tags@)[k].value != name@,
            decreases tags.len() - i,
        {
            if tags[i].value == *name {
                return Some(i);
            }
            i = i + 1;
        }
        None
    }

    /// The index of the row keeping id `id`, scanning in table order.
    fn position_by_id(tags: &Vec<TagModel>, id: i32) -> (r: Option<usize>)
        ensures
            match r {
                Some(i) => i < tags.len() && tag_rows(tags@)[i as int].id == id,
                None => !has_tag_id(tag_rows(tags@), id),
            },
    {
        let mut i: usize = 0;
        while i < tags.len()
            invariant
                i <= tags.len(),
                forall|k: int| 0 <= k < i ==> tag_rows(tags@)[k].id != id,
            decreases tags.len() - i,
        {
            if tags[i].id == id {
                return Some(i);
            }
            i = i + 1;
        }
        None
    }

    /// All tags, or the first `limit` of them, in table order.
    #[verifier::loop_isolation(false)]
    pub fn fetch_all(db: &Database, limit: Option<u64>) -> (r: Vec<TagModel>)
        ensures
            tag_rows(r@) == db@.tags.take(fetch_count(limit, db@.tags.len() as int)),
    {
        let len = db.tags.len();
        let n: usize = match limit {
            None => len,
            Some(l) => if l < len as u64 {
                l as usize
            } else {
                len
            },
        };
        let mut out: Vec<TagModel> = Vec::new();
        let mut i: usize = 0;
        while i < n
            invariant
                i <= n,
                tag_rows(out@) =~= db@.tags.take(i as int),
            decreases n - i,
        {
            out.push(db.tags[i].clone());
            proof {
                assert(tag_rows(out@) =~= db@.tags.take(i + 1));
            }
            i = i + 1;
        }
        proof {
            assert(n as int == fetch_count(limit, db@.tags.len() as int));
        }
        out
    }

    /// The tags whose id is in `ids`, in table order; missing ids are
    /// silently omitted.
    #[verifier::loop_isolation(false)]
    pub fn find_all_by_id(db: &Database, ids: &Vec<i32>) -> (r: Vec<TagModel>)
        ensures
            tag_rows(r@) == db@.tags.filter(|tg: TagRow| ids@.contains(tg.id)),
    {
        let ghost pv = |tg: TagRow| ids@.contains(tg.id);
        let mut out: Vec<TagModel> = Vec::new();
        let mut i: usize = 0;
        proof {
            assert(tag_rows(out@) =~= db@.tags.take(0).filter(pv)) by {
                reveal(Seq::filter);
            }
        }
        while i < db.tags.len()
            invariant
                i <= db.tags.len(),
                tag_rows(out@) =~= db@.tags.take(i as int).filter(pv),
            decreases db.tags.len() - i,
        {
            proof {
                db@.tags.lemma_take_succ_push(i as int);
                Seq::lemma_filter_push(db@.tags.take(i as int), db@.tags[i as int], pv);
            }
            if contains_id(ids, db.tags[i].id) {
                out.push(db.tags[i].clone());
                proof {
                    assert(pv(db@.tags[i as int]));
                    assert(tag_rows(out@) =~= db@.tags.take(i as int + 1).filter(pv));
                }
            } else {
                proof {
                    assert(!pv(db@.tags[i as int]));
                }
            }
            i = i + 1;
        }
        proof {
            assert(db@.tags.take(db@.tags.len() as int) =~= db@.tags);
        }
        out
    }

    /// The value of the tag with this id; fails with `NotFound` when the id
    /// does not exist.
    pub fn find_by_id(db: &Database, id: i32) -> (r: Result<String, StoreError>)
        requires
            db@.wf(),
        ensures
            r is Ok <==> has_tag_id(db@.tags, id),
            r matches Ok(v) ==> v@ == tag_value_of(db@.tags, id),
            r is Err ==> r == Err::<String, StoreError>(StoreError::NotFound),
    {
        match Self::position_by_id(&db.tags, id) {
            Some(i) => {
                proof {
                    lemma_tag_idx_unique(db@.tags, i as int, id);
                }
                Ok(db.tags[i].value.clone())
            },
            None => Err(StoreError::NotFound),
        }
    }

    /// Look up a tag id by exact value match; never creates.
    pub fn get_id(db: &Database, tag: &String) -> (r: Result<i32, StoreError>)
        requires
            db@.wf(),
        ensures
            has_tag_value(db@.tags, tag@) ==> r == Ok::<i32, StoreError>(
                tag_id_of(db@.tags, tag@),
            ),
            !has_tag_value(db@.tags, tag@) ==> r == Err::<i32, StoreError>(StoreError::NotFound),
    {
        match Self::position_by_value(&db.tags, tag) {
            Some(i) => {
                proof {
                    lemma_tag_idx_by_value_unique(db@.tags, i as int, tag@);
                }
                Ok(db.tags[i].id)
            },
            None => Err(StoreError::NotFound),
        }
    }

    /// Get-or-create: returns the existing id for `tag`, else inserts a new
    /// row and returns its generated id.
    pub fn new(db: &mut Database, tag: &String) -> (r: i32)
        requires
            old(db)@.wf(),
            old(db)@.can_add_tag(),
        ensures
            final(db)@.wf(),
            final(db)@ == tag_created(old(db)@, tag@).0,
            r == tag_created(old(db)@, tag@).1,
            has_tag_value(final(db)@.tags, tag@),
            r == tag_id_of(final(db)@.tags, tag@),
    {
        match Self::position_by_value(&db.tags, tag) {
            Some(i) => {
                proof {
                    lemma_tag_idx_by_value_unique(db@.tags, i as int, tag@);
                }
                db.tags[i].id
            },
            None => {
                let id = db.next_tag_id;
                let ghost t0 = db@;
                db.tags.push(TagModel { id, value: tag.clone() });
                db.next_tag_id = db.next_tag_id + 1;
                proof {
                    let nrow = TagRow { id, value: tag@ };
                    assert(db@.tags =~= t0.tags.push(nrow));
                    assert(db@ =~= tag_created(t0, tag@).0);
                    let n = t0.tags.len() as int;
                    assert(db@.tags[n] == nrow);
                    assert forall|i: int, j: int| #![trigger db@.tags[i], db@.tags[j]]
                        0 <= i < j < db@.tags.len() implies db@.tags[i].id != db@.tags[j].id
                        && db@.tags[i].value != db@.tags[j].value by {
                        if j == n {
                            assert(t0.tags[i].id < t0.next_tag_id);
                        }
                    }
                    lemma_tag_idx_by_value_unique(db@.tags, n, tag@);
                }
                id
            },
        }
    }

    /// Delete the row matching `tag`; succeeds (as a no-op) on a miss.
    /// The caller is responsible for removing dependent bindings first.
    #[verifier::loop_isolation(false)]
    pub fn remove(db: &mut Database, tag: &String)
        requires
            old(db)@.wf(),
        ensures
            final(db)@.wf(),
            final(db)@ == tag_removed(old(db)@, tag@),
            !has_tag_value(final(db)@.tags, tag@),
    {
        let ghost t0 = db@;
        let ghost pv = |tg: TagRow| tg.value != tag@;
        let mut kept: Vec<TagModel> = Vec::new();
        let mut i: usize = 0;
        proof {
            assert(tag_rows(kept@) =~= tag_rows(db.tags@).take(0).filter(pv)) by {
                reveal(Seq::filter);
            }
        }
        while i < db.tags.len()
            invariant
                i <= db.tags.len(),
                db@ == t0,
                tag_rows(kept@) =~= tag_rows(db.tags@).take(i as int).filter(pv),
            decreases db.tags.len() - i,
        {
            let ghost before = tag_rows(kept@);
            if !(db.tags[i].value == *tag) {
                kept.push(db.tags[i].clone());
                proof {
                    let rows = tag_rows(db.tags@);
                    rows.lemma_take_succ_push(i as int);
                    Seq::lemma_filter_push(rows.take(i as int), rows[i as int], pv);
                    assert(pv(rows[i as int]));
                    assert(tag_rows(kept@) =~= before.push(rows[i as int]));
                    assert(tag_rows(kept@) =~= rows.take(i as int + 1).filter(pv));
                }
            } else {
                proof {
                    let rows = tag_rows(db.tags@);
                    rows.lemma_take_succ_push(i as int);
                    Seq::lemma_filter_push(rows.take(i as int), rows[i as int], pv);
                    assert(!pv(rows[i as int]));
                    assert(tag_rows(kept@) =~= rows.take(i as int + 1).filter(pv));
                }
            }
            i = i + 1;
        }
        db.tags = kept;
        proof {
            assert(t0.tags.take(t0.tags.len() as int) =~= t0.tags);
            assert(db@ =~= tag_removed(t0, tag@));
            lemma_tags_filter_wf(t0.tags, pv, t0.next_tag_id);
            if has_tag_value(db@.tags, tag@) {
                let i = tag_idx_by_value(db@.tags, tag@);
                broadcast use Seq::lemma_filter_pred;

                assert(pv(db@.tags[i]));
            }
        }
    }

    /// Rename the row keeping id `id` to `tag`. Fails with `NotFound` when
    /// the id is absent, and with `DuplicateName` when another row already
    /// carries the value.
    pub fn edit(db: &mut Database, id: i32, tag: &String) -> (r: Result<(), StoreError>)
        requires
            old(db)@.wf(),
        ensures
            final(db)@.wf(),
            !has_tag_id(old(db)@.tags, id) ==> r == Err::<(), StoreError>(StoreError::NotFound)
                && final(db)@ == old(db)@,
            has_tag_id(old(db)@.tags, id) && has_tag_value(old(db)@.tags, tag@) && tag_id_of(
                old(db)@.tags,
                tag@,
            ) != id ==> r == Err::<(), StoreError>(StoreError::DuplicateName) && final(db)@
                == old(db)@,
            has_tag_id(old(db)@.tags, id) && (!has_tag_value(old(db)@.tags, tag@) || tag_id_of(
                old(db)@.tags,
                tag@,
            ) == id) ==> r == Ok::<(), StoreError>(()) && final(db)@ == tag_renamed(
                old(db)@,
                id,
                tag@,
            ),
    {
        let ghost t0 = db@;
        match Self::position_by_id(&db.tags, id) {
            None => Err(StoreError::NotFound),
            Some(i) => {
                proof {
                    lemma_tag_idx_unique(t0.tags, i as int, id);
                }
                match Self::position_by_value(&db.tags, tag) {
                    Some(j) if db.tags[j].id != id => {
                        proof {
                            lemma_tag_idx_by_value_unique(t0.tags, j as int, tag@);
                        }
                        Err(StoreError::DuplicateName)
                    },
                    _ => {
                        proof {
                            if has_tag_value(t0.tags, tag@) {
                                let j = tag_idx_by_value(t0.tags, tag@);
                                assert(t0.tags[j].value == tag@);
                            }
                        }
                        db.tags.set(i, TagModel { id, value: tag.clone() });
                        proof {
                            let nrow = TagRow { id, value: tag@ };
                            assert(db@.tags =~= t0.tags.update(i as int, nrow));
                            assert(db@ =~= tag_renamed(t0, id, tag@));
                            assert forall|a: int, b: int| #![trigger db@.tags[a], db@.tags[b]]
                                0 <= a < b < db@.tags.len() implies db@.tags[a].id
                                != db@.tags[b].id && db@.tags[a].value != db@.tags[b].value by {
                                if a == i as int || b == i as int {
                                    let o = if a == i as int {
                                        b
                                    } else {
                                        a
                                    };
                                    assert(db@.tags[o] == t0.tags[o]);
                                    if t0.tags[o].value == tag@ {
                                        lemma_tag_idx_by_value_unique(t0.tags, o, tag@);
                                    }
                                }
                            }
                        }
                        Ok(())
                    },
                }
            },
        }
    }
}

/// Distinctness and id bounds survive filtering the tag table.
pub proof fn lemma_tags_filter_wf(tags: Seq<TagRow>, p: spec_fn(TagRow) -> bool, next: int)
    requires
        tags_distinct(tags),
        tag_ids_bounded(tags, next),
    ensures
        tags_distinct(tags.filter(p)),
        tag_ids_bounded(tags.filter(p), next),
{
    broadcast use Seq::lemma_filter_contains_rev;

    let flt = tags.filter(p);
    assert(tags.no_duplicates()) by {
        assert forall|i: int, j: int|
            0 <= i < tags.len() && 0 <= j < tags.len() && i != j implies tags[i] != tags[j] by {
            if i < j {
                assert(tags[i].id != tags[j].id);
            } else {
                assert(tags[j].id != tags[i].id);
            }
        }
    }
    lemma_filter_no_duplicates(tags, p);
    assert forall|i: int, j: int| #![trigger flt[i], flt[j]]
        0 <= i < j < flt.len() implies flt[i].id != flt[j].id && flt[i].value != flt[j].value by {
        assert(flt.contains(flt[i]));
        assert(flt.contains(flt[j]));
        let a = choose|a: int| 0 <= a < tags.len() && tags[a] == flt[i];
        let b = choose|b: int| 0 <= b < tags.len() && tags[b] == flt[j];
        assert(flt[i] != flt[j]);
        if a < b {
            assert(tags[a].id != tags[b].id);
        } else {
            assert(tags[b].id != tags[a].id);
        }
    }
    assert forall|i: int| #![trigger flt[i]] 0 <= i < flt.len() implies 1 <= flt[i].id && flt[i].id
        < next by {
        assert(flt.contains(flt[i]));
        let a = choose|a: int| 0 <= a < tags.len() && tags[a] == flt[i];
    }
}

/// A rename whose new value collides with no other row keeps the table
/// well-formed.
pub proof fn lemma_tag_renamed_wf(t: StoreView, id: i32, name: Seq<char>)
    requires
        t.wf(),
        has_tag_id(t.tags, id),
        !has_tag_value(t.tags, name) || tag_id_of(t.tags, name) == id,
    ensures
        tag_renamed(t, id, name).wf(),
{
    let i = tag_idx(t.tags, id);
    assert(0 <= i < t.tags.len() && t.tags[i].id == id);
    let upd = tag_renamed(t, id, name).tags;
    assert forall|a: int, b: int| #![trigger upd[a], upd[b]] 0 <= a < b < upd.len() implies upd[a].id
        != upd[b].id && upd[a].value != upd[b].value by {
        if a == i || b == i {
            let o = if a == i {
                b
            } else {
                a
            };
            assert(upd[o] == t.tags[o]);
            if t.tags[o].value == name {
                lemma_tag_idx_by_value_unique(t.tags, o, name);
            }
        }
    }
    assert forall|a: int| #![trigger upd[a]] 0 <= a < upd.len() implies 1 <= upd[a].id && upd[a].id
        < t.next_tag_id by {
        assert(upd[a].id == t.tags[a].id);
    }
}

/// What one get-or-create step guarantees: the store stays well-formed,
/// only the tag table and its counter move, the name resolves to the
/// returned id, and every earlier row still resolves as it did.
pub proof fn lemma_tag_created_props(t: StoreView, name: Seq<char>)
    requires
        t.wf(),
        t.can_add_tag(),
    ensures
        ({
            let (t1, id) = tag_created(t, name);
            &&& t1.wf()
            &&& t1.items == t.items
            &&& t1.binds == t.binds
            &&& t1.next_item_id == t.next_item_id
            &&& t.next_tag_id <= t1.next_tag_id <= t.next_tag_id + 1
            &&& has_tag_value(t1.tags, name) && tag_id_of(t1.tags, name) == id
            &&& has_tag_id(t1.tags, id) && tag_value_of(t1.tags, id) == name
            &&& forall|x: i32|
                #[trigger] has_tag_id(t.tags, x) ==> has_tag_id(t1.tags, x) && tag_value_of(
                    t1.tags,
                    x,
                ) == tag_value_of(t.tags, x)
        }),
{
    let (t1, id) = tag_created(t, name);
    if has_tag_value(t.tags, name) {
        let i = tag_idx_by_value(t.tags, name);
        lemma_tag_idx_unique(t.tags, i, t.tags[i].id);
    } else {
        let n = t.tags.len() as int;
        assert(t1.tags[n] == (TagRow { id, value: name }));
        assert forall|a: int, b: int| #![trigger t1.tags[a], t1.tags[b]]
            0 <= a < b < t1.tags.len() implies t1.tags[a].id != t1.tags[b].id && t1.tags[a].value
            != t1.tags[b].value by {
            if b == n {
                assert(t.tags[a].id < t.next_tag_id);
            }
        }
        lemma_tag_idx_by_value_unique(t1.tags, n, name);
        lemma_tag_idx_unique(t1.tags, n, id);
        assert forall|x: i32| #[trigger] has_tag_id(t.tags, x) implies has_tag_id(t1.tags, x)
            && tag_value_of(t1.tags, x) == tag_value_of(t.tags, x) by {
            let w = tag_idx(t.tags, x);
            assert(0 <= w < t.tags.len() && t.tags[w].id == x);
            assert(t1.tags[w] == t.tags[w]);
            lemma_tag_idx_unique(t1.tags, w, x);
        }
    }
}

/// Get-or-create is idempotent: a second call with the same name finds the
/// row the first call ensured, returns the same id, and changes nothing;
/// and exactly one row carries that name afterwards.
pub proof fn lemma_get_or_create_idempotent(t: StoreView, name: Seq<char>)
    requires
        t.wf(),
    ensures
        ({
            let (t1, id1) = tag_created(t, name);
            let (t2, id2) = tag_created(t1, name);
            &&& t2 == t1
            &&& id2 == id1
            &&& t1.tags.filter(|tg: TagRow| tg.value == name) =~= seq![
                TagRow { id: id1, value: name },
            ]
        }),
{
    let (t1, id1) = tag_created(t, name);
    let i = if has_tag_value(t.tags, name) {
        tag_idx_by_value(t.tags, name)
    } else {
        t.tags.len() as int
    };
    assert(t1.tags[i] == (TagRow { id: id1, value: name }));
    assert(tags_distinct(t1.tags)) by {
        if !has_tag_value(t.tags, name) {
            assert forall|a: int, b: int| #![trigger t1.tags[a], t1.tags[b]]
                0 <= a < b < t1.tags.len() implies t1.tags[a].id != t1.tags[b].id
                && t1.tags[a].value != t1.tags[b].value by {
                if b == t.tags.len() as int {
                    assert(t.tags[a].id < t.next_tag_id);
                }
            }
        }
    }
    lemma_tag_idx_by_value_unique(t1.tags, i, name);
    assert(has_tag_value(t1.tags, name));
    assert(tag_created(t1, name) == (t1, id1));
    lemma_filter_singleton(t1.tags, |tg: TagRow| tg.value == name, i);
}

/// Well-formedness already rules out two rows with one value: however a
/// name was created, at most one row carries it.
pub proof fn lemma_unique_tag_names(t: StoreView, name: Seq<char>)
    requires
        t.wf(),
    ensures
        t.tags.filter(|tg: TagRow| tg.value == name).len() <= 1,
{
    let p = |tg: TagRow| tg.value == name;
    if has_tag_value(t.tags, name) {
        let i = tag_idx_by_value(t.tags, name);
        assert forall|k: int| 0 <= k < t.tags.len() && k != i implies !p(t.tags[k]) by {
            lemma_tag_idx_by_value_unique(t.tags, i, name);
            if t.tags[k].value == name {
                lemma_tag_idx_by_value_unique(t.tags, k, name);
            }
        }
        lemma_filter_singleton(t.tags, p, i);
    } else {
        assert forall|k: int| 0 <= k < t.tags.len() implies !p(#[trigger] t.tags[k]) by {}
        lemma_filter_none(t.tags, p);
    }
}

} // verus!
