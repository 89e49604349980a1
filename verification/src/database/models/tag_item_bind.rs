//! The binding relation: `(tag_id, item_id)` pairs with composite-key uniqueness.

use vstd::prelude::*;

use crate::database::models::tags::has_tag_id;
use crate::database::models::todo_item::has_item_id;
use crate::database::{lemma_filter_no_duplicates, Database, StoreView};

verus! {

/// One row of the binding relation: "item `item_id` is labeled with tag `tag_id`".
#[derive(Clone, Copy, Debug, PartialEq, Eq, Structural)]
pub struct BindModel {
    pub tag_id: i32,
    pub item_id: i32,
}

/// The mathematical content of a [`BindModel`] row.
#[verifier::ext_equal]
pub ghost struct BindRow {
    pub tag_id: i32,
    pub item_id: i32,
}

impl View for BindModel {
    type V = BindRow;

    open spec fn view(&self) -> BindRow {
        BindRow { tag_id: self.tag_id, item_id: self.item_id }
    }
}

impl BindModel {
    /// Pairs a tag id with an item id.
    pub fn new(tag_id: i32, item_id: i32) -> (b: BindModel)
        ensures
            b@ == (BindRow { tag_id, item_id }),
    {
        BindModel { tag_id, item_id }
    }
}

/// The rows of a binding table, viewed mathematically.
pub open spec fn bind_rows(v: Seq<BindModel>) -> Seq<BindRow> {
    v.map_values(|b: BindModel| b@)
}

/// No two rows hold the same pair.
pub open spec fn binds_distinct(binds: Seq<BindRow>) -> bool {
    forall|i: int, j: int| #![trigger binds[i], binds[j]]
        0 <= i < j < binds.len() ==> binds[i] != binds[j]
}

/// Both sides of every pair were handed out by the counters.
pub open spec fn bind_ids_bounded(binds: Seq<BindRow>, next_tag: int, next_item: int) -> bool {
    forall|i: int| #![trigger binds[i]]
        0 <= i < binds.len()
            ==> 1 <= binds[i].tag_id && binds[i].tag_id < next_tag && 1 <= binds[i].item_id
            && binds[i].item_id < next_item
}

/// Some row holds this pair.
pub open spec fn has_bind(binds: Seq<BindRow>, tag_id: i32, item_id: i32) -> bool {
    binds.contains(BindRow { tag_id, item_id })
}

/// Idempotent insert of one pair: a pair already present is left alone.
pub open spec fn bind_inserted(binds: Seq<BindRow>, b: BindRow) -> Seq<BindRow> {
    if binds.contains(b) {
        binds
    } else {
        binds.push(b)
    }
}

/// Idempotent bulk insert, pair by pair in input order.
pub open spec fn binds_inserted(binds: Seq<BindRow>, peers: Seq<BindRow>) -> Seq<BindRow>
    decreases peers.len(),
{
    if peers.len() == 0 {
        binds
    } else {
        bind_inserted(binds_inserted(binds, peers.drop_last()), peers.last())
    }
}

/// A pair lands in the bulk insert's result iff it was present before or
/// stands among the inserted pairs.
pub proof fn lemma_binds_inserted_contains(binds: Seq<BindRow>, peers: Seq<BindRow>, b: BindRow)
    ensures
        binds_inserted(binds, peers).contains(b) <==> binds.contains(b) || peers.contains(b),
    decreases peers.len(),
{
    if peers.len() > 0 {
        let prev = binds_inserted(binds, peers.drop_last());
        lemma_binds_inserted_contains(binds, peers.drop_last(), b);
        assert(peers.drop_last().contains(b) || peers.last() == b ==> peers.contains(b));
        if peers.contains(b) {
            let k = choose|k: int| 0 <= k < peers.len() && peers[k] == b;
            if k < peers.len() - 1 {
                assert(peers.drop_last()[k] == b);
            }
        }
        if !prev.contains(peers.last()) {
            assert forall|x: BindRow| #[trigger]
                prev.push(peers.last()).contains(x) implies prev.contains(x) || x
                == peers.last() by {
                let k = choose|k: int| 0 <= k < prev.push(peers.last()).len() && prev.push(
                    peers.last(),
                )[k] == x;
                if k < prev.len() {
                    assert(prev[k] == x);
                }
            }
            assert(prev.contains(b) ==> prev.push(peers.last()).contains(b)) by {
                if prev.contains(b) {
                    let k = choose|k: int| 0 <= k < prev.len() && prev[k] == b;
                    assert(prev.push(peers.last())[k] == b);
                }
            }
            assert(prev.push(peers.last()).last() == peers.last());
        }
    }
}

/// Removal of one pair; everything else is untouched. A miss removes nothing.
pub open spec fn bind_removed(binds: Seq<BindRow>, tag_id: i32, item_id: i32) -> Seq<BindRow> {
    binds.filter(|b: BindRow| b != (BindRow { tag_id, item_id }))
}

/// Removal of every pair on a tag; used before the tag itself is deleted.
pub open spec fn binds_removed_by_tag(binds: Seq<BindRow>, tag_id: i32) -> Seq<BindRow> {
    binds.filter(|b: BindRow| b.tag_id != tag_id)
}

/// Removal of every pair on an item; used before the item itself is deleted.
pub open spec fn binds_removed_by_item(binds: Seq<BindRow>, item_id: i32) -> Seq<BindRow> {
    binds.filter(|b: BindRow| b.item_id != item_id)
}

/// The tag ids bound to `item_id`, in table order.
pub open spec fn tag_ids_for_item(binds: Seq<BindRow>, item_id: i32) -> Seq<i32>
    decreases binds.len(),
{
    if binds.len() == 0 {
        Seq::empty()
    } else {
        let rest = tag_ids_for_item(binds.drop_last(), item_id);
        if binds.last().item_id == item_id {
            rest.push(binds.last().tag_id)
        } else {
            rest
        }
    }
}

/// The item ids bound to `tag_id`, in table order.
pub open spec fn item_ids_for_tag(binds: Seq<BindRow>, tag_id: i32) -> Seq<i32>
    decreases binds.len(),
{
    if binds.len() == 0 {
        Seq::empty()
    } else {
        let rest = item_ids_for_tag(binds.drop_last(), tag_id);
        if binds.last().tag_id == tag_id {
            rest.push(binds.last().item_id)
        } else {
            rest
        }
    }
}

/// With no pair on `tag_id` left, no item resolves through it.
pub proof fn lemma_item_ids_for_tag_none(binds: Seq<BindRow>, tag_id: i32)
    requires
        forall|k: int| 0 <= k < binds.len() ==> (#[trigger] binds[k]).tag_id != tag_id,
    ensures
        item_ids_for_tag(binds, tag_id).len() == 0,
    decreases binds.len(),
{
    if binds.len() > 0 {
        lemma_item_ids_for_tag_none(binds.drop_last(), tag_id);
    }
}

/// A tag id is listed for an item iff the table holds that pair.
pub proof fn lemma_tag_ids_for_item_contains(binds: Seq<BindRow>, item_id: i32, x: i32)
    ensures
        tag_ids_for_item(binds, item_id).contains(x) <==> binds.contains(
            BindRow { tag_id: x, item_id },
        ),
    decreases binds.len(),
{
    let row = BindRow { tag_id: x, item_id };
    if binds.len() > 0 {
        let rest = binds.drop_last();
        let last = binds.last();
        lemma_tag_ids_for_item_contains(rest, item_id, x);
        let ids = tag_ids_for_item(binds, item_id);
        let rest_ids = tag_ids_for_item(rest, item_id);
        if binds.contains(row) {
            let k = choose|k: int| 0 <= k < binds.len() && binds[k] == row;
            if k < binds.len() - 1 {
                assert(rest[k] == row);
                let m = choose|m: int| 0 <= m < rest_ids.len() && rest_ids[m] == x;
                if last.item_id == item_id {
                    assert(ids[m] == x);
                } else {
                    assert(ids[m] == x);
                }
            } else {
                assert(last == row);
                assert(ids.last() == x);
            }
        }
        if ids.contains(x) {
            let m = choose|m: int| 0 <= m < ids.len() && ids[m] == x;
            if last.item_id == item_id && m == ids.len() - 1 {
                assert(binds[binds.len() - 1] == (BindRow {
                    tag_id: ids[m],
                    item_id,
                }));
            } else {
                assert(rest_ids[m] == x);
                let k = choose|k: int| 0 <= k < rest.len() && rest[k] == row;
                assert(binds[k] == row);
            }
        }
    }
}

/// Every inserted pair must reference rows that exist when it is written;
/// the caller resolves tags and writes the item before binding them.
pub open spec fn binds_reference_rows(peers: Seq<BindRow>, t: StoreView) -> bool {
    forall|k: int|
        0 <= k < peers.len() ==> has_tag_id(t.tags, (#[trigger] peers[k]).tag_id) && has_item_id(
            t.items,
            peers[k].item_id,
        )
}

/// The binding store: CRUD over the binding relation.
pub struct BindEntity;

impl BindEntity {
    /// Whether the pair is already present, scanning in table order.
    fn has_pair(binds: &Vec<BindModel>, tag_id: i32, item_id: i32) -> (r: bool)
        ensures
            r == has_bind(bind_rows(binds@), tag_id, item_id),
    {
        let mut i: usize = 0;
        while i < binds.len()
            invariant
                i <= binds.len(),
                forall|k: int| 0 <= k < i ==> bind_rows(binds@)[k] != (BindRow { tag_id, item_id }),
            decreases binds.len() - i,
        {
            if binds[i].tag_id == tag_id && binds[i].item_id == item_id {
                proof {
                    assert(bind_rows(binds@)[i as int] == (BindRow { tag_id, item_id }));
                }
                return true;
            }
            i = i + 1;
        }
        false
    }

    /// Bulk insert in input order; a pair that is already present — or
    /// repeated in the input — is inserted once (idempotent bind).
    #[verifier::loop_isolation(false)]
    pub fn save_all(db: &mut Database, peers: Vec<BindModel>)
        requires
            old(db)@.wf(),
            binds_reference_rows(bind_rows(peers@), old(db)@),
        ensures
            final(db)@.wf(),
            final(db)@ == (StoreView {
                binds: binds_inserted(old(db)@.binds, bind_rows(peers@)),
                ..old(db)@
            }),
            forall|b: BindRow|
                #[trigger] final(db)@.binds.contains(b) <==> old(db)@.binds.contains(b)
                    || bind_rows(peers@).contains(b),
    {
        let ghost t0 = db@;
        let ghost prows = bind_rows(peers@);
        let mut j: usize = 0;
        while j < peers.len()
            invariant
                j <= peers.len(),
                db@.tags == t0.tags,
                db@.items == t0.items,
                db@.next_tag_id == t0.next_tag_id,
                db@.next_item_id == t0.next_item_id,
                db@.binds == binds_inserted(t0.binds, prows.take(j as int)),
                db@.wf(),
            decreases peers.len() - j,
        {
            let p = peers[j];
            let ghost prev = db@.binds;
            proof {
                assert(prows[j as int] == p@);
            }
            if !Self::has_pair(&db.binds, p.tag_id, p.item_id) {
                db.binds.push(p);
                proof {
                    assert(bind_rows(db.binds@) =~= prev.push(p@));
                    assert forall|a: int, b: int| #![trigger db@.binds[a], db@.binds[b]]
                        0 <= a < b < db@.binds.len() implies db@.binds[a] != db@.binds[b] by {
                        if b == prev.len() {
                            if prev[a] == db@.binds[b] {
                                assert(prev.contains(db@.binds[b]));
                            }
                        }
                    }
                    assert forall|a: int| #![trigger db@.binds[a]]
                        0 <= a < db@.binds.len() implies 1 <= db@.binds[a].tag_id
                        && db@.binds[a].tag_id < db@.next_tag_id && 1 <= db@.binds[a].item_id
                        && db@.binds[a].item_id < db@.next_item_id by {
                        if a == prev.len() {
                            let wt = choose|i: int|
                                0 <= i < t0.tags.len() && (#[trigger] t0.tags[i]).id == p@.tag_id;
                            let wi = choose|i: int|
                                0 <= i < t0.items.len() && (#[trigger] t0.items[i]).id
                                    == p@.item_id;
                        }
                    }
                }
            }
            proof {
                prows.lemma_take_succ_push(j as int);
                assert(prows.take(j as int + 1).drop_last() =~= prows.take(j as int));
                assert(binds_inserted(t0.binds, prows.take(j as int + 1)) == bind_inserted(
                    binds_inserted(t0.binds, prows.take(j as int)),
                    prows[j as int],
                ));
                assert(db@.binds == bind_inserted(prev, prows[j as int]));
            }
            j = j + 1;
        }
        proof {
            assert(prows.take(prows.len() as int) =~= prows);
            assert(db@ =~= (StoreView { binds: binds_inserted(t0.binds, prows), ..t0 }));
            assert forall|b: BindRow| #[trigger]
                db@.binds.contains(b) <==> t0.binds.contains(b) || prows.contains(b) by {
                lemma_binds_inserted_contains(t0.binds, prows, b);
            }
        }
    }

    /// All pairs, in table order.
    #[verifier::loop_isolation(false)]
    pub fn fetch_all(db: &Database) -> (r: Vec<BindModel>)
        ensures
            bind_rows(r@) == db@.binds,
    {
        let mut out: Vec<BindModel> = Vec::new();
        let mut i: usize = 0;
        while i < db.binds.len()
            invariant
                i <= db.binds.len(),
                bind_rows(out@) =~= db@.binds.take(i as int),
            decreases db.binds.len() - i,
        {
            out.push(db.binds[i]);
            proof {
                assert(bind_rows(out@) =~= db@.binds.take(i + 1));
            }
            i = i + 1;
        }
        proof {
            assert(db@.binds.take(db@.binds.len() as int) =~= db@.binds);
        }
        out
    }

    /// The tag ids bound to `item_id`, in table order.
    #[verifier::loop_isolation(false)]
    pub fn fetch_all_tag_id(db: &Database, item_id: i32) -> (r: Vec<i32>)
        ensures
            r@ == tag_ids_for_item(db@.binds, item_id),
    {
        let mut out: Vec<i32> = Vec::new();
        let mut i: usize = 0;
        while i < db.binds.len()
            invariant
                i <= db.binds.len(),
                out@ == tag_ids_for_item(db@.binds.take(i as int), item_id),
            decreases db.binds.len() - i,
        {
            proof {
                db@.binds.lemma_take_succ_push(i as int);
                assert(db@.binds.take(i as int + 1).drop_last() =~= db@.binds.take(i as int));
            }
            if db.binds[i].item_id == item_id {
                out.push(db.binds[i].tag_id);
            }
            i = i + 1;
        }
        proof {
            assert(db@.binds.take(db@.binds.len() as int) =~= db@.binds);
        }
        out
    }

    /// The item ids bound to `tag_id`, in table order.
    #[verifier::loop_isolation(false)]
    pub fn fetch_all_item_id(db: &Database, tag_id: i32) -> (r: Vec<i32>)
        ensures
            r@ == item_ids_for_tag(db@.binds, tag_id),
    {
        let mut out: Vec<i32> = Vec::new();
        let mut i: usize = 0;
        while i < db.binds.len()
            invariant
                i <= db.binds.len(),
                out@ == item_ids_for_tag(db@.binds.take(i as int), tag_id),
            decreases db.binds.len() - i,
        {
            proof {
                db@.binds.lemma_take_succ_push(i as int);
                assert(db@.binds.take(i as int + 1).drop_last() =~= db@.binds.take(i as int));
            }
            if db.binds[i].tag_id == tag_id {
                out.push(db.binds[i].item_id);
            }
            i = i + 1;
        }
        proof {
            assert(db@.binds.take(db@.binds.len() as int) =~= db@.binds);
        }
        out
    }

    /// Remove exactly the pair `(tag_id, item_id)`; a miss removes nothing.
    #[verifier::loop_isolation(false)]
    pub fn remove(db: &mut Database, tag_id: i32, item_id: i32)
        requires
            old(db)@.wf(),
        ensures
            final(db)@.wf(),
            final(db)@ == (StoreView {
                binds: bind_removed(old(db)@.binds, tag_id, item_id),
                ..old(db)@
            }),
            !has_bind(final(db)@.binds, tag_id, item_id),
    {
        let ghost t0 = db@;
        let ghost pv = |b: BindRow| b != (BindRow { tag_id, item_id });
        let mut kept: Vec<BindModel> = Vec::new();
        let mut i: usize = 0;
        proof {
            assert(bind_rows(kept@) =~= t0.binds.take(0).filter(pv)) by {
                reveal(Seq::filter);
            }
        }
        while i < db.binds.len()
            invariant
                i <= db.binds.len(),
                db@ == t0,
                bind_rows(kept@) =~= t0.binds.take(i as int).filter(pv),
            decreases db.binds.len() - i,
        {
            proof {
                t0.binds.lemma_take_succ_push(i as int);
                Seq::lemma_filter_push(t0.binds.take(i as int), t0.binds[i as int], pv);
            }
            if !(db.binds[i].tag_id == tag_id && db.binds[i].item_id == item_id) {
                kept.push(db.binds[i]);
                proof {
                    assert(pv(t0.binds[i as int]));
                    assert(bind_rows(kept@) =~= t0.binds.take(i as int + 1).filter(pv));
                }
            } else {
                proof {
                    assert(!pv(t0.binds[i as int]));
                }
            }
            i = i + 1;
        }
        db.binds = kept;
        proof {
            assert(t0.binds.take(t0.binds.len() as int) =~= t0.binds);
            assert(db@ =~= (StoreView { binds: bind_removed(t0.binds, tag_id, item_id), ..t0 }));
            lemma_binds_filter_wf(t0, pv);
            broadcast use Seq::lemma_filter_pred;

            if has_bind(db@.binds, tag_id, item_id) {
                let k = choose|k: int|
                    0 <= k < db@.binds.len() && db@.binds[k] == (BindRow { tag_id, item_id });
                assert(pv(db@.binds[k]));
            }
        }
    }

    /// Remove every pair on `tag_id`; used before the tag itself is deleted.
    #[verifier::loop_isolation(false)]
    pub fn remove_bind_tag_id(db: &mut Database, tag_id: i32)
        requires
            old(db)@.wf(),
        ensures
            final(db)@.wf(),
            final(db)@ == (StoreView {
                binds: binds_removed_by_tag(old(db)@.binds, tag_id),
                ..old(db)@
            }),
            forall|k: int|
                0 <= k < final(db)@.binds.len() ==> (#[trigger] final(db)@.binds[k]).tag_id
                    != tag_id,
    {
        let ghost t0 = db@;
        let ghost pv = |b: BindRow| b.tag_id != tag_id;
        let mut kept: Vec<BindModel> = Vec::new();
        let mut i: usize = 0;
        proof {
            assert(bind_rows(kept@) =~= t0.binds.take(0).filter(pv)) by {
                reveal(Seq::filter);
            }
        }
        while i < db.binds.len()
            invariant
                i <= db.binds.len(),
                db@ == t0,
                bind_rows(kept@) =~= t0.binds.take(i as int).filter(pv),
            decreases db.binds.len() - i,
        {
            proof {
                t0.binds.lemma_take_succ_push(i as int);
                Seq::lemma_filter_push(t0.binds.take(i as int), t0.binds[i as int], pv);
            }
            if !(db.binds[i].tag_id == tag_id) {
                kept.push(db.binds[i]);
                proof {
                    assert(pv(t0.binds[i as int]));
                    assert(bind_rows(kept@) =~= t0.binds.take(i as int + 1).filter(pv));
                }
            } else {
                proof {
                    assert(!pv(t0.binds[i as int]));
                }
            }
            i = i + 1;
        }
        db.binds = kept;
        proof {
            assert(t0.binds.take(t0.binds.len() as int) =~= t0.binds);
            assert(db@ =~= (StoreView { binds: binds_removed_by_tag(t0.binds, tag_id), ..t0 }));
            lemma_binds_filter_wf(t0, pv);
            broadcast use Seq::lemma_filter_pred;

        }
    }

    /// Remove every pair on `item_id`; used before the item itself is deleted.
    #[verifier::loop_isolation(false)]
    pub fn remove_bind_item_id(db: &mut Database, item_id: i32)
        requires
            old(db)@.wf(),
        ensures
            final(db)@.wf(),
            final(db)@ == (StoreView {
                binds: binds_removed_by_item(old(db)@.binds, item_id),
                ..old(db)@
            }),
            forall|k: int|
                0 <= k < final(db)@.binds.len() ==> (#[trigger] final(db)@.binds[k]).item_id
                    != item_id,
    {
        let ghost t0 = db@;
        let ghost pv = |b: BindRow| b.item_id != item_id;
        let mut kept: Vec<BindModel> = Vec::new();
        let mut i: usize = 0;
        proof {
            assert(bind_rows(kept@) =~= t0.binds.take(0).filter(pv)) by {
                reveal(Seq::filter);
            }
        }
        while i < db.binds.len()
            invariant
                i <= db.binds.len(),
                db@ == t0,
                bind_rows(kept@) =~= t0.binds.take(i as int).filter(pv),
            decreases db.binds.len() - i,
        {
            proof {
                t0.binds.lemma_take_succ_push(i as int);
                Seq::lemma_filter_push(t0.binds.take(i as int), t0.binds[i as int], pv);
            }
            if !(db.binds[i].item_id == item_id) {
                kept.push(db.binds[i]);
                proof {
                    assert(pv(t0.binds[i as int]));
                    assert(bind_rows(kept@) =~= t0.binds.take(i as int + 1).filter(pv));
                }
            } else {
                proof {
                    assert(!pv(t0.binds[i as int]));
                }
            }
            i = i + 1;
        }
        db.binds = kept;
        proof {
            assert(t0.binds.take(t0.binds.len() as int) =~= t0.binds);
            assert(db@ =~= (StoreView { binds: binds_removed_by_item(t0.binds, item_id), ..t0 }));
            lemma_binds_filter_wf(t0, pv);
            broadcast use Seq::lemma_filter_pred;

        }
    }
}

/// Pair uniqueness and id bounds survive filtering the binding table.
pub proof fn lemma_binds_filter_wf(t: StoreView, p: spec_fn(BindRow) -> bool)
    requires
        t.wf(),
    ensures
        (StoreView { binds: t.binds.filter(p), ..t }).wf(),
{
    broadcast use Seq::lemma_filter_contains_rev;

    let flt = t.binds.filter(p);
    assert(t.binds.no_duplicates());
    lemma_filter_no_duplicates(t.binds, p);
    assert forall|a: int| #![trigger flt[a]] 0 <= a < flt.len() implies 1 <= flt[a].tag_id
        && flt[a].tag_id < t.next_tag_id && 1 <= flt[a].item_id && flt[a].item_id
        < t.next_item_id by {
        assert(flt.contains(flt[a]));
        let k = choose|k: int| 0 <= k < t.binds.len() && t.binds[k] == flt[a];
    }
}

} // verus!
