//! The store handle and its mathematical view.
//!
//! A [`Database`] value holds the three relations of the store — tags, todo
//! items, and tag↔item bindings — together with the auto-increment counters
//! that hand out row ids. Its view is a [`StoreView`], and every operation
//! of the library is specified as a transformation of that view.

pub mod models;
pub mod priority;

use vstd::prelude::*;

use crate::database::models::tag_item_bind::{
    bind_ids_bounded, bind_rows, binds_distinct, BindModel, BindRow,
};
use crate::database::models::tags::{tag_ids_bounded, tag_rows, tags_distinct, TagModel, TagRow};
use crate::database::models::todo_item::{
    item_ids_bounded, item_rows, items_distinct, ItemRow, TodoItemModel,
};

verus! {

/// A store operation failed; each operation's contract says exactly when.
#[derive(Clone, Copy, Debug, PartialEq, Eq, Structural)]
pub enum StoreError {
    /// The referenced id or name does not exist.
    NotFound,
    /// A rename would collide with an existing unique tag value.
    DuplicateName,
}

impl StoreError {
    /// The human-readable rendering used at the external boundary.
    pub fn message(&self) -> (s: &'static str)
        ensures
            *self is NotFound ==> s@ == "not found"@,
            *self is DuplicateName ==> s@ == "duplicate name"@,
    {
        match self {
            StoreError::NotFound => "not found",
            StoreError::DuplicateName => "duplicate name",
        }
    }
}

/// The mathematical state of the store: the rows of the three relations in
/// table order, and the counters from which the next generated ids are taken.
#[verifier::ext_equal]
pub ghost struct StoreView {
    pub tags: Seq<TagRow>,
    pub items: Seq<ItemRow>,
    pub binds: Seq<BindRow>,
    pub next_tag_id: int,
    pub next_item_id: int,
}

impl StoreView {
    /// The store with no rows and untouched counters.
    pub open spec fn empty() -> StoreView {
        StoreView {
            tags: Seq::empty(),
            items: Seq::empty(),
            binds: Seq::empty(),
            next_tag_id: 1,
            next_item_id: 1,
        }
    }

    /// Well-formedness: ids and tag values are unique, binding pairs are
    /// unique, and every id ever handed out is below its counter. Binding
    /// sides always point below the counters, but a binding may outlive the
    /// row it points to only through the raw per-table removals; the
    /// cross-table operations keep bindings and rows consistent.
    pub open spec fn wf(self) -> bool {
        &&& tags_distinct(self.tags)
        &&& tag_ids_bounded(self.tags, self.next_tag_id)
        &&& items_distinct(self.items)
        &&& item_ids_bounded(self.items, self.next_item_id)
        &&& binds_distinct(self.binds)
        &&& bind_ids_bounded(self.binds, self.next_tag_id, self.next_item_id)
        &&& 1 <= self.next_tag_id <= i32::MAX as int
        &&& 1 <= self.next_item_id <= i32::MAX as int
    }

    /// Room for one more generated tag id.
    pub open spec fn can_add_tag(self) -> bool {
        self.next_tag_id < i32::MAX as int
    }

    /// Room for one more generated item id.
    pub open spec fn can_add_item(self) -> bool {
        self.next_item_id < i32::MAX as int
    }
}

/// The in-memory store: three relations plus the id counters.
pub struct Database {
    pub(crate) tags: Vec<TagModel>,
    pub(crate) items: Vec<TodoItemModel>,
    pub(crate) binds: Vec<BindModel>,
    pub(crate) next_tag_id: i32,
    pub(crate) next_item_id: i32,
}

impl View for Database {
    type V = StoreView;

    open(crate) spec fn view(&self) -> StoreView {
        StoreView {
            tags: tag_rows(self.tags@),
            items: item_rows(self.items@),
            binds: bind_rows(self.binds@),
            next_tag_id: self.next_tag_id as int,
            next_item_id: self.next_item_id as int,
        }
    }
}

impl Database {
    /// A fresh, empty store.
    pub fn new() -> (db: Database)
        ensures
            db@ == StoreView::empty(),
            db@.wf(),
    {
        let db = Database {
            tags: Vec::new(),
            items: Vec::new(),
            binds: Vec::new(),
            next_tag_id: 1,
            next_item_id: 1,
        };
        proof {
            assert(db@ =~= StoreView::empty());
        }
        db
    }

    /// Whether another generated tag id is available.
    pub fn can_add_tag(&self) -> (r: bool)
        ensures
            r == self@.can_add_tag(),
    {
        self.next_tag_id < i32::MAX
    }

    /// Whether another generated item id is available.
    pub fn can_add_item(&self) -> (r: bool)
        ensures
            r == self@.can_add_item(),
    {
        self.next_item_id < i32::MAX
    }

    /// Whether `n` more generated tag ids are available.
    pub fn can_add_tags(&self, n: usize) -> (r: bool)
        requires
            self@.wf(),
        ensures
            r == (self@.next_tag_id + n <= i32::MAX as int),
    {
        n as u64 <= (i32::MAX as u64) - (self.next_tag_id as u64)
    }

    /// Rebuild a store from persisted rows, validating what the engine
    /// cannot enforce here: unique ids and tag values, unique binding
    /// pairs, and ids a counter could have generated. The counters resume
    /// past every id present, so freshly generated ids never collide.
    #[verifier::loop_isolation(false)]
    pub fn from_rows(tags: Vec<TagModel>, items: Vec<TodoItemModel>, binds: Vec<BindModel>) -> (r:
        Option<Database>)
        ensures
            r is Some <==> loadable(tag_rows(tags@), item_rows(items@), bind_rows(binds@)),
            r matches Some(db) ==> db@.wf() && db@.tags == tag_rows(tags@) && db@.items
                == item_rows(items@) && db@.binds == bind_rows(binds@),
    {
        let ghost trows = tag_rows(tags@);
        let ghost irows = item_rows(items@);
        let ghost brows = bind_rows(binds@);
        let mut max_tag: i32 = 0;
        let mut max_item: i32 = 0;
        let mut i: usize = 0;
        while i < tags.len()
            invariant
                i <= tags.len(),
                forall|a: int, b: int| #![trigger trows[a], trows[b]]
                    0 <= a < b < i ==> trows[a].id != trows[b].id && trows[a].value
                        != trows[b].value,
                forall|a: int|
                    0 <= a < i ==> 1 <= (#[trigger] trows[a]).id && trows[a].id < i32::MAX
                        && trows[a].id <= max_tag,
                0 <= max_tag < i32::MAX,
            decreases tags.len() - i,
        {
            if tags[i].id < 1 || tags[i].id == i32::MAX {
                proof {
                    assert(trows[i as int].id < 1 || trows[i as int].id == i32::MAX);
                }
                return None;
            }
            let mut j: usize = 0;
            while j < i
                invariant
                    j <= i < tags.len(),
                    forall|a: int|
                        0 <= a < j ==> (#[trigger] trows[a]).id != trows[i as int].id
                            && trows[a].value != trows[i as int].value,
                decreases i - j,
            {
                if tags[j].id == tags[i].id || tags[j].value == tags[i].value {
                    proof {
                        assert(trows[j as int].id == trows[i as int].id || trows[j as int].value
                            == trows[i as int].value);
                    }
                    return None;
                }
                j = j + 1;
            }
            if tags[i].id > max_tag {
                max_tag = tags[i].id;
            }
            i = i + 1;
        }
        let mut i: usize = 0;
        while i < items.len()
            invariant
                i <= items.len(),
                forall|a: int, b: int| #![trigger irows[a], irows[b]]
                    0 <= a < b < i ==> irows[a].id != irows[b].id,
                forall|a: int|
                    0 <= a < i ==> 1 <= (#[trigger] irows[a]).id && irows[a].id < i32::MAX
                        && irows[a].id <= max_item,
                0 <= max_item < i32::MAX,
            decreases items.len() - i,
        {
            if items[i].id < 1 || items[i].id == i32::MAX {
                proof {
                    assert(irows[i as int].id < 1 || irows[i as int].id == i32::MAX);
                }
                return None;
            }
            let mut j: usize = 0;
            while j < i
                invariant
                    j <= i < items.len(),
                    forall|a: int| 0 <= a < j ==> (#[trigger] irows[a]).id != irows[i as int].id,
                decreases i - j,
            {
                if items[j].id == items[i].id {
                    proof {
                        assert(irows[j as int].id == irows[i as int].id);
                    }
                    return None;
                }
                j = j + 1;
            }
            if items[i].id > max_item {
                max_item = items[i].id;
            }
            i = i + 1;
        }
        let mut i: usize = 0;
        while i < binds.len()
            invariant
                i <= binds.len(),
                forall|a: int, b: int| #![trigger brows[a], brows[b]]
                    0 <= a < b < i ==> brows[a] != brows[b],
                forall|a: int|
                    0 <= a < i ==> 1 <= (#[trigger] brows[a]).tag_id && brows[a].tag_id < i32::MAX
                        && brows[a].tag_id <= max_tag && 1 <= brows[a].item_id && brows[a].item_id
                        < i32::MAX && brows[a].item_id <= max_item,
                forall|a: int| 0 <= a < trows.len() ==> (#[trigger] trows[a]).id <= max_tag,
                forall|a: int| 0 <= a < irows.len() ==> (#[trigger] irows[a]).id <= max_item,
                0 <= max_tag < i32::MAX,
                0 <= max_item < i32::MAX,
            decreases binds.len() - i,
        {
            if binds[i].tag_id < 1 || binds[i].tag_id == i32::MAX || binds[i].item_id < 1
                || binds[i].item_id == i32::MAX {
                proof {
                    assert(brows[i as int].tag_id < 1 || brows[i as int].tag_id == i32::MAX
                        || brows[i as int].item_id < 1 || brows[i as int].item_id == i32::MAX);
                }
                return None;
            }
            let mut j: usize = 0;
            while j < i
                invariant
                    j <= i < binds.len(),
                    forall|a: int| 0 <= a < j ==> (#[trigger] brows[a]) != brows[i as int],
                decreases i - j,
            {
                if binds[j].tag_id == binds[i].tag_id && binds[j].item_id == binds[i].item_id {
                    proof {
                        assert(brows[j as int] == brows[i as int]);
                    }
                    return None;
                }
                j = j + 1;
            }
            if binds[i].tag_id > max_tag {
                max_tag = binds[i].tag_id;
            }
            if binds[i].item_id > max_item {
                max_item = binds[i].item_id;
            }
            i = i + 1;
        }
        let db = Database {
            tags,
            items,
            binds,
            next_tag_id: max_tag + 1,
            next_item_id: max_item + 1,
        };
        proof {
            assert(loadable(trows, irows, brows));
            assert(db@.tags == trows && db@.items == irows && db@.binds == brows);
            assert(db@.wf());
        }
        Some(db)
    }
}

/// What a set of persisted rows must satisfy to be loaded as a store:
/// unique ids and tag values, unique binding pairs, and every id positive
/// and below the largest generated id a counter can reach.
pub open spec fn loadable(tags: Seq<TagRow>, items: Seq<ItemRow>, binds: Seq<BindRow>) -> bool {
    &&& tags_distinct(tags)
    &&& items_distinct(items)
    &&& binds_distinct(binds)
    &&& forall|i: int|
        0 <= i < tags.len() ==> 1 <= (#[trigger] tags[i]).id && tags[i].id < i32::MAX
    &&& forall|i: int|
        0 <= i < items.len() ==> 1 <= (#[trigger] items[i]).id && items[i].id < i32::MAX
    &&& forall|i: int|
        0 <= i < binds.len() ==> 1 <= (#[trigger] binds[i]).tag_id && binds[i].tag_id < i32::MAX
            && 1 <= binds[i].item_id && binds[i].item_id < i32::MAX
}

/// How many rows a `limit` clause lets through out of `len`.
pub open spec fn fetch_count(limit: Option<u64>, len: int) -> int {
    match limit {
        None => len,
        Some(l) => if l as int <= len {
            l as int
        } else {
            len
        },
    }
}

/// Whether `x` occurs in `ids`, by linear scan.
pub(crate) fn contains_id(ids: &Vec<i32>, x: i32) -> (b: bool)
    ensures
        b == ids@.contains(x),
{
    let mut i: usize = 0;
    while i < ids.len()
        invariant
            i <= ids.len(),
            forall|k: int| 0 <= k < i ==> ids@[k] != x,
        decreases ids.len() - i,
    {
        if ids[i] == x {
            return true;
        }
        i = i + 1;
    }
    false
}

/// A sequence without duplicate elements stays duplicate-free under `filter`.
pub proof fn lemma_filter_no_duplicates<A>(s: Seq<A>, p: spec_fn(A) -> bool)
    requires
        s.no_duplicates(),
    ensures
        s.filter(p).no_duplicates(),
    decreases s.len(),
{
    reveal(Seq::filter);
    broadcast use Seq::lemma_filter_contains_rev;

    if s.len() > 0 {
        let dl = s.drop_last();
        let last = s.last();
        assert(dl.no_duplicates());
        lemma_filter_no_duplicates(dl, p);
        if p(last) {
            let f = dl.filter(p);
            assert forall|i: int, j: int|
                0 <= i < f.push(last).len() && 0 <= j < f.push(last).len() && i != j implies f.push(
                last,
            )[i] != f.push(last)[j] by {
                if i < f.len() && j < f.len() {
                } else {
                    let k = if i < f.len() {
                        i
                    } else {
                        j
                    };
                    assert(f.contains(f[k]));
                    let m = choose|m: int| 0 <= m < dl.len() && dl[m] == f[k];
                    assert(s[m] == f[k]);
                }
            }
        }
    }
}

/// Two predicates that agree on every element filter a sequence alike.
pub proof fn lemma_filter_congruence<A>(s: Seq<A>, p: spec_fn(A) -> bool, q: spec_fn(A) -> bool)
    requires
        forall|x: A| #[trigger] p(x) == q(x),
    ensures
        s.filter(p) == s.filter(q),
    decreases s.len(),
{
    reveal(Seq::filter);
    if s.len() > 0 {
        lemma_filter_congruence(s.drop_last(), p, q);
    }
}

/// If no element satisfies the predicate, `filter` yields the empty sequence.
pub proof fn lemma_filter_none<A>(s: Seq<A>, p: spec_fn(A) -> bool)
    requires
        forall|i: int| 0 <= i < s.len() ==> !p(#[trigger] s[i]),
    ensures
        s.filter(p).len() == 0,
    decreases s.len(),
{
    reveal(Seq::filter);
    if s.len() > 0 {
        lemma_filter_none(s.drop_last(), p);
    }
}

/// If exactly the element at index `i` satisfies the predicate, `filter`
/// yields that one element.
pub proof fn lemma_filter_singleton<A>(s: Seq<A>, p: spec_fn(A) -> bool, i: int)
    requires
        0 <= i < s.len(),
        p(s[i]),
        forall|k: int| 0 <= k < s.len() && k != i ==> !p(#[trigger] s[k]),
    ensures
        s.filter(p) =~= seq![s[i]],
    decreases s.len(),
{
    reveal(Seq::filter);
    if i == s.len() - 1 {
        lemma_filter_none(s.drop_last(), p);
    } else {
        lemma_filter_singleton(s.drop_last(), p, i);
    }
}

} // verus!
