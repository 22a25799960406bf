//! The keyed record tables of the persistent store: draft compositions,
//! glyph records, glyph owners, glyph minters and marketplace offers, with
//! the lookup specs and effect lemmas the operations use.

use vstd::prelude::*;
use crate::types::{
    DraftEntry, DraftEntryV, GlyphEntry, GlyphEntryV, MinterEntry, MinterEntryV, OfferEntry,
    OfferEntryV, OwnerEntry, OwnerEntryV, StoreV,
};
use crate::balances::bal_unique;
use crate::comp::{comp_count, wf_comp};

verus! {

/// Byte-for-byte equality of two hashes.
pub fn bytes_eq(a: &Vec<u8>, b: &Vec<u8>) -> (r: bool)
    ensures
        r <==> a@ == b@,
{
    if a.len() != b.len() {
        proof {
            assert(a@.len() != b@.len());
        }
        return false;
    }
    let mut i: usize = 0;
    while i < a.len()
        invariant
            a@.len() == b@.len(),
            i <= a@.len(),
            forall|j: int| 0 <= j < i ==> a@[j] == b@[j],
        decreases a@.len() - i,
    {
        if a[i] != b[i] {
            proof {
                assert(a@[i as int] != b@[i as int]);
            }
            return false;
        }
        i += 1;
    }
    proof {
        assert(a@ =~= b@);
    }
    true
}

/// The first draft entry under `id`, if any.
pub open spec fn draft_lookup(ds: Seq<DraftEntryV>, id: u64) -> Option<DraftEntryV>
    decreases ds.len(),
{
    if ds.len() == 0 {
        None
    } else if ds[0].id == id {
        Some(ds[0])
    } else {
        draft_lookup(ds.drop_first(), id)
    }
}

/// No two draft entries share an id.
pub open spec fn draft_unique(ds: Seq<DraftEntryV>) -> bool {
    forall|i: int, j: int|
        0 <= i < j < ds.len() ==> (#[trigger] ds[i]).id != (#[trigger] ds[j]).id
}

/// The first match at index `i` is what the lookup returns.
pub proof fn lemma_draft_at(ds: Seq<DraftEntryV>, id: u64, i: int)
    requires
        0 <= i < ds.len(),
        ds[i].id == id,
        forall|k: int| 0 <= k < i ==> (#[trigger] ds[k]).id != id,
    ensures
        draft_lookup(ds, id) == Some(ds[i]),
    decreases i,
{
    if i > 0 {
        lemma_draft_at(ds.drop_first(), id, i - 1);
    }
}

/// An id with no entry looks up to `None`.
pub proof fn lemma_draft_none(ds: Seq<DraftEntryV>, id: u64)
    requires
        forall|k: int| 0 <= k < ds.len() ==> (#[trigger] ds[k]).id != id,
    ensures
        draft_lookup(ds, id) is None,
    decreases ds.len(),
{
    if ds.len() > 0 {
        lemma_draft_none(ds.drop_first(), id);
    }
}

/// What one id resolves to after a draft entry is appended.
pub proof fn lemma_draft_push_one(ds: Seq<DraftEntryV>, e: DraftEntryV, id2: u64)
    ensures
        draft_lookup(ds.push(e), id2) == (if draft_lookup(ds, id2) is Some {
            draft_lookup(ds, id2)
        } else if id2 == e.id {
            Some(e)
        } else {
            None
        }),
    decreases ds.len(),
{
    if ds.len() == 0 {
        assert(ds.push(e)[0] == e);
        assert(ds.push(e).drop_first() =~= Seq::<DraftEntryV>::empty());
        assert(draft_lookup(ds.push(e).drop_first(), id2) is None);
    } else {
        lemma_draft_push_one(ds.drop_first(), e, id2);
        assert(ds.push(e)[0] == ds[0]);
        assert(ds.push(e).drop_first() =~= ds.drop_first().push(e));
    }
}

/// Appending a draft entry resolves only its own id, and only if that id was
/// free; every other id is untouched.
pub proof fn lemma_draft_push(ds: Seq<DraftEntryV>, e: DraftEntryV)
    ensures
        draft_lookup(ds.push(e), e.id) == (if draft_lookup(ds, e.id) is Some {
            draft_lookup(ds, e.id)
        } else {
            Some(e)
        }),
        forall|id2: u64|
            id2 != e.id ==> #[trigger] draft_lookup(ds.push(e), id2) == draft_lookup(ds, id2),
{
    lemma_draft_push_one(ds, e, e.id);
    assert forall|id2: u64| id2 != e.id implies #[trigger] draft_lookup(ds.push(e), id2)
        == draft_lookup(ds, id2) by {
        lemma_draft_push_one(ds, e, id2);
    }
}

/// What one id resolves to after the entry at index `i` is removed.
pub proof fn lemma_draft_remove_one(ds: Seq<DraftEntryV>, i: int, id2: u64)
    requires
        0 <= i < ds.len(),
        draft_unique(ds),
    ensures
        draft_lookup(ds.remove(i), id2) == (if id2 == ds[i].id {
            None
        } else {
            draft_lookup(ds, id2)
        }),
    decreases i,
{
    if i == 0 {
        assert(ds.remove(0) =~= ds.drop_first());
        if id2 == ds[0].id {
            assert(forall|k: int|
                0 <= k < ds.drop_first().len() ==> (#[trigger] ds.drop_first()[k]).id != ds[0].id);
            lemma_draft_none(ds.drop_first(), ds[0].id);
        }
    } else {
        assert(draft_unique(ds.drop_first()));
        lemma_draft_remove_one(ds.drop_first(), i - 1, id2);
        assert(ds.remove(i)[0] == ds[0]);
        assert(ds.remove(i).drop_first() =~= ds.drop_first().remove(i - 1));
    }
}

/// Removing the entry at index `i` clears its id and keeps every other id.
pub proof fn lemma_draft_remove(ds: Seq<DraftEntryV>, i: int)
    requires
        0 <= i < ds.len(),
        draft_unique(ds),
    ensures
        draft_lookup(ds.remove(i), ds[i].id) is None,
        forall|id2: u64|
            id2 != ds[i].id ==> #[trigger] draft_lookup(ds.remove(i), id2) == draft_lookup(
                ds,
                id2,
            ),
{
    lemma_draft_remove_one(ds, i, ds[i].id);
    assert forall|id2: u64| id2 != ds[i].id implies #[trigger] draft_lookup(ds.remove(i), id2)
        == draft_lookup(ds, id2) by {
        lemma_draft_remove_one(ds, i, id2);
    }
}

/// What one id resolves to after the entry at index `i` is replaced by one
/// with the same id.
pub proof fn lemma_draft_update_one(ds: Seq<DraftEntryV>, i: int, e: DraftEntryV, id2: u64)
    requires
        0 <= i < ds.len(),
        e.id == ds[i].id,
        forall|k: int| 0 <= k < i ==> (#[trigger] ds[k]).id != ds[i].id,
    ensures
        draft_lookup(ds.update(i, e), id2) == (if id2 == e.id {
            Some(e)
        } else {
            draft_lookup(ds, id2)
        }),
    decreases i,
{
    if i == 0 {
        assert(ds.update(0, e)[0] == e);
        assert(ds.update(0, e).drop_first() =~= ds.drop_first());
    } else {
        lemma_draft_update_one(ds.drop_first(), i - 1, e, id2);
        assert(ds.update(i, e)[0] == ds[0]);
        assert(ds.update(i, e).drop_first() =~= ds.drop_first().update(i - 1, e));
    }
}

/// Replacing the entry at index `i` by one with the same id rebinds that id
/// and keeps every other id.
pub proof fn lemma_draft_update(ds: Seq<DraftEntryV>, i: int, e: DraftEntryV)
    requires
        0 <= i < ds.len(),
        e.id == ds[i].id,
        forall|k: int| 0 <= k < i ==> (#[trigger] ds[k]).id != ds[i].id,
    ensures
        draft_lookup(ds.update(i, e), e.id) == Some(e),
        forall|id2: u64|
            id2 != e.id ==> #[trigger] draft_lookup(ds.update(i, e), id2) == draft_lookup(
                ds,
                id2,
            ),
{
    lemma_draft_update_one(ds, i, e, e.id);
    assert forall|id2: u64| id2 != e.id implies #[trigger] draft_lookup(ds.update(i, e), id2)
        == draft_lookup(ds, id2) by {
        lemma_draft_update_one(ds, i, e, id2);
    }
}

/// Find the index of the first draft entry under `id`.
pub fn draft_find(ds: &Vec<DraftEntry>, id: u64) -> (r: Option<usize>)
    ensures
        match r {
            Some(i) => i < ds.deep_view().len() && ds.deep_view()[i as int].id == id && (forall|
                k: int,
            |
                0 <= k < i ==> (#[trigger] ds.deep_view()[k]).id != id) && draft_lookup(
                ds.deep_view(),
                id,
            ) == Some(ds.deep_view()[i as int]),
            None => draft_lookup(ds.deep_view(), id) is None && (forall|k: int|
                0 <= k < ds.deep_view().len() ==> (#[trigger] ds.deep_view()[k]).id != id),
        },
{
    let mut i: usize = 0;
    while i < ds.len()
        invariant
            i <= ds@.len(),
            forall|k: int| 0 <= k < i ==> (#[trigger] ds.deep_view()[k]).id != id,
        decreases ds@.len() - i,
    {
        if ds[i].id == id {
            proof {
                assert(ds.deep_view()[i as int].id == id);
                lemma_draft_at(ds.deep_view(), id, i as int);
            }
            return Some(i);
        }
        proof {
            assert(ds.deep_view()[i as int].id != id);
        }
        i += 1;
    }
    proof {
        lemma_draft_none(ds.deep_view(), id);
    }
    None
}

/// The first glyph record under hash `h`, if any.
pub open spec fn glyph_lookup(gs: Seq<GlyphEntryV>, h: Seq<u8>) -> Option<GlyphEntryV>
    decreases gs.len(),
{
    if gs.len() == 0 {
        None
    } else if gs[0].hash == h {
        Some(gs[0])
    } else {
        glyph_lookup(gs.drop_first(), h)
    }
}

/// No two glyph records share a hash.
pub open spec fn glyph_unique(gs: Seq<GlyphEntryV>) -> bool {
    forall|i: int, j: int|
        0 <= i < j < gs.len() ==> (#[trigger] gs[i]).hash != (#[trigger] gs[j]).hash
}

pub proof fn lemma_glyph_at(gs: Seq<GlyphEntryV>, h: Seq<u8>, i: int)
    requires
        0 <= i < gs.len(),
        gs[i].hash == h,
        forall|k: int| 0 <= k < i ==> (#[trigger] gs[k]).hash != h,
    ensures
        glyph_lookup(gs, h) == Some(gs[i]),
    decreases i,
{
    if i > 0 {
        lemma_glyph_at(gs.drop_first(), h, i - 1);
    }
}

pub proof fn lemma_glyph_none(gs: Seq<GlyphEntryV>, h: Seq<u8>)
    requires
        forall|k: int| 0 <= k < gs.len() ==> (#[trigger] gs[k]).hash != h,
    ensures
        glyph_lookup(gs, h) is None,
    decreases gs.len(),
{
    if gs.len() > 0 {
        lemma_glyph_none(gs.drop_first(), h);
    }
}

/// What one hash resolves to after a glyph record is appended.
pub proof fn lemma_glyph_push_one(gs: Seq<GlyphEntryV>, e: GlyphEntryV, h2: Seq<u8>)
    ensures
        glyph_lookup(gs.push(e), h2) == (if glyph_lookup(gs, h2) is Some {
            glyph_lookup(gs, h2)
        } else if h2 == e.hash {
            Some(e)
        } else {
            None
        }),
    decreases gs.len(),
{
    if gs.len() == 0 {
        assert(gs.push(e)[0] == e);
        assert(gs.push(e).drop_first() =~= Seq::<GlyphEntryV>::empty());
        assert(glyph_lookup(gs.push(e).drop_first(), h2) is None);
    } else {
        lemma_glyph_push_one(gs.drop_first(), e, h2);
        assert(gs.push(e)[0] == gs[0]);
        assert(gs.push(e).drop_first() =~= gs.drop_first().push(e));
    }
}

/// Appending a glyph record resolves only its own hash, if it was free.
pub proof fn lemma_glyph_push(gs: Seq<GlyphEntryV>, e: GlyphEntryV)
    ensures
        glyph_lookup(gs.push(e), e.hash) == (if glyph_lookup(gs, e.hash) is Some {
            glyph_lookup(gs, e.hash)
        } else {
            Some(e)
        }),
        forall|h2: Seq<u8>|
            h2 != e.hash ==> #[trigger] glyph_lookup(gs.push(e), h2) == glyph_lookup(gs, h2),
{
    lemma_glyph_push_one(gs, e, e.hash);
    assert forall|h2: Seq<u8>| h2 != e.hash implies #[trigger] glyph_lookup(gs.push(e), h2)
        == glyph_lookup(gs, h2) by {
        lemma_glyph_push_one(gs, e, h2);
    }
}

/// What one hash resolves to after the record at index `i` is removed.
pub proof fn lemma_glyph_remove_one(gs: Seq<GlyphEntryV>, i: int, h2: Seq<u8>)
    requires
        0 <= i < gs.len(),
        glyph_unique(gs),
    ensures
        glyph_lookup(gs.remove(i), h2) == (if h2 == gs[i].hash {
            None
        } else {
            glyph_lookup(gs, h2)
        }),
    decreases i,
{
    if i == 0 {
        assert(gs.remove(0) =~= gs.drop_first());
        if h2 == gs[0].hash {
            assert(forall|k: int|
                0 <= k < gs.drop_first().len() ==> (#[trigger] gs.drop_first()[k]).hash
                    != gs[0].hash);
            lemma_glyph_none(gs.drop_first(), gs[0].hash);
        }
    } else {
        assert(glyph_unique(gs.drop_first()));
        lemma_glyph_remove_one(gs.drop_first(), i - 1, h2);
        assert(gs.remove(i)[0] == gs[0]);
        assert(gs.remove(i).drop_first() =~= gs.drop_first().remove(i - 1));
    }
}

/// Removing the record at index `i` clears its hash and keeps every other.
pub proof fn lemma_glyph_remove(gs: Seq<GlyphEntryV>, i: int)
    requires
        0 <= i < gs.len(),
        glyph_unique(gs),
    ensures
        glyph_lookup(gs.remove(i), gs[i].hash) is None,
        forall|h2: Seq<u8>|
            h2 != gs[i].hash ==> #[trigger] glyph_lookup(gs.remove(i), h2) == glyph_lookup(
                gs,
                h2,
            ),
{
    lemma_glyph_remove_one(gs, i, gs[i].hash);
    assert forall|h2: Seq<u8>| h2 != gs[i].hash implies #[trigger] glyph_lookup(gs.remove(i), h2)
        == glyph_lookup(gs, h2) by {
        lemma_glyph_remove_one(gs, i, h2);
    }
}

/// What one hash resolves to after the record at index `i` is replaced by
/// one with the same hash.
pub proof fn lemma_glyph_update_one(gs: Seq<GlyphEntryV>, i: int, e: GlyphEntryV, h2: Seq<u8>)
    requires
        0 <= i < gs.len(),
        e.hash == gs[i].hash,
        forall|k: int| 0 <= k < i ==> (#[trigger] gs[k]).hash != gs[i].hash,
    ensures
        glyph_lookup(gs.update(i, e), h2) == (if h2 == e.hash {
            Some(e)
        } else {
            glyph_lookup(gs, h2)
        }),
    decreases i,
{
    if i == 0 {
        assert(gs.update(0, e)[0] == e);
        assert(gs.update(0, e).drop_first() =~= gs.drop_first());
    } else {
        lemma_glyph_update_one(gs.drop_first(), i - 1, e, h2);
        assert(gs.update(i, e)[0] == gs[0]);
        assert(gs.update(i, e).drop_first() =~= gs.drop_first().update(i - 1, e));
    }
}

/// Replacing the record at index `i` by one with the same hash rebinds that
/// hash and keeps every other.
pub proof fn lemma_glyph_update(gs: Seq<GlyphEntryV>, i: int, e: GlyphEntryV)
    requires
        0 <= i < gs.len(),
        e.hash == gs[i].hash,
        forall|k: int| 0 <= k < i ==> (#[trigger] gs[k]).hash != gs[i].hash,
    ensures
        glyph_lookup(gs.update(i, e), e.hash) == Some(e),
        forall|h2: Seq<u8>|
            h2 != e.hash ==> #[trigger] glyph_lookup(gs.update(i, e), h2) == glyph_lookup(
                gs,
                h2,
            ),
{
    lemma_glyph_update_one(gs, i, e, e.hash);
    assert forall|h2: Seq<u8>| h2 != e.hash implies #[trigger] glyph_lookup(gs.update(i, e), h2)
        == glyph_lookup(gs, h2) by {
        lemma_glyph_update_one(gs, i, e, h2);
    }
}

/// Find the index of the first glyph record under hash `h`.
pub fn glyph_find(gs: &Vec<GlyphEntry>, h: &Vec<u8>) -> (r: Option<usize>)
    ensures
        match r {
            Some(i) => i < gs.deep_view().len() && gs.deep_view()[i as int].hash == h@ && (forall|
                k: int,
            |
                0 <= k < i ==> (#[trigger] gs.deep_view()[k]).hash != h@) && glyph_lookup(
                gs.deep_view(),
                h@,
            ) == Some(gs.deep_view()[i as int]),
            None => glyph_lookup(gs.deep_view(), h@) is None && (forall|k: int|
                0 <= k < gs.deep_view().len() ==> (#[trigger] gs.deep_view()[k]).hash != h@),
        },
{
    let mut i: usize = 0;
    while i < gs.len()
        invariant
            i <= gs@.len(),
            forall|k: int| 0 <= k < i ==> (#[trigger] gs.deep_view()[k]).hash != h@,
        decreases gs@.len() - i,
    {
        if bytes_eq(&gs[i].hash, h) {
            proof {
                assert(gs.deep_view()[i as int].hash == h@);
                lemma_glyph_at(gs.deep_view(), h@, i as int);
            }
            return Some(i);
        }
        proof {
            assert(gs.deep_view()[i as int].hash != h@);
        }
        i += 1;
    }
    proof {
        lemma_glyph_none(gs.deep_view(), h@);
    }
    None
}

/// The first glyph owner entry under hash `h`, if any.
pub open spec fn owner_lookup(xs: Seq<OwnerEntryV>, h: Seq<u8>) -> Option<OwnerEntryV>
    decreases xs.len(),
{
    if xs.len() == 0 {
        None
    } else if xs[0].hash == h {
        Some(xs[0])
    } else {
        owner_lookup(xs.drop_first(), h)
    }
}

/// No two glyph owner entries share a hash.
pub open spec fn owner_unique(xs: Seq<OwnerEntryV>) -> bool {
    forall|i: int, j: int|
        0 <= i < j < xs.len() ==> (#[trigger] xs[i]).hash != (#[trigger] xs[j]).hash
}

pub proof fn lemma_owner_at(xs: Seq<OwnerEntryV>, h: Seq<u8>, i: int)
    requires
        0 <= i < xs.len(),
        xs[i].hash == h,
        forall|k: int| 0 <= k < i ==> (#[trigger] xs[k]).hash != h,
    ensures
        owner_lookup(xs, h) == Some(xs[i]),
    decreases i,
{
    if i > 0 {
        lemma_owner_at(xs.drop_first(), h, i - 1);
    }
}

pub proof fn lemma_owner_none(xs: Seq<OwnerEntryV>, h: Seq<u8>)
    requires
        forall|k: int| 0 <= k < xs.len() ==> (#[trigger] xs[k]).hash != h,
    ensures
        owner_lookup(xs, h) is None,
    decreases xs.len(),
{
    if xs.len() > 0 {
        lemma_owner_none(xs.drop_first(), h);
    }
}

/// What one hash resolves to after a glyph owner entry is appended.
pub proof fn lemma_owner_push_one(xs: Seq<OwnerEntryV>, e: OwnerEntryV, h2: Seq<u8>)
    ensures
        owner_lookup(xs.push(e), h2) == (if owner_lookup(xs, h2) is Some {
            owner_lookup(xs, h2)
        } else if h2 == e.hash {
            Some(e)
        } else {
            None
        }),
    decreases xs.len(),
{
    if xs.len() == 0 {
        assert(xs.push(e)[0] == e);
        assert(xs.push(e).drop_first() =~= Seq::<OwnerEntryV>::empty());
        assert(owner_lookup(xs.push(e).drop_first(), h2) is None);
    } else {
        lemma_owner_push_one(xs.drop_first(), e, h2);
        assert(xs.push(e)[0] == xs[0]);
        assert(xs.push(e).drop_first() =~= xs.drop_first().push(e));
    }
}

/// What one hash resolves to after the entry at index `i` is removed.
pub proof fn lemma_owner_remove_one(xs: Seq<OwnerEntryV>, i: int, h2: Seq<u8>)
    requires
        0 <= i < xs.len(),
        owner_unique(xs),
    ensures
        owner_lookup(xs.remove(i), h2) == (if h2 == xs[i].hash {
            None
        } else {
            owner_lookup(xs, h2)
        }),
    decreases i,
{
    if i == 0 {
        assert(xs.remove(0) =~= xs.drop_first());
        if h2 == xs[0].hash {
            assert(forall|k: int|
                0 <= k < xs.drop_first().len() ==> (#[trigger] xs.drop_first()[k]).hash
                    != xs[0].hash);
            lemma_owner_none(xs.drop_first(), xs[0].hash);
        }
    } else {
        assert(owner_unique(xs.drop_first()));
        lemma_owner_remove_one(xs.drop_first(), i - 1, h2);
        assert(xs.remove(i)[0] == xs[0]);
        assert(xs.remove(i).drop_first() =~= xs.drop_first().remove(i - 1));
    }
}

/// What one hash resolves to after the entry at index `i` is replaced by
/// one with the same hash.
pub proof fn lemma_owner_update_one(xs: Seq<OwnerEntryV>, i: int, e: OwnerEntryV, h2: Seq<u8>)
    requires
        0 <= i < xs.len(),
        e.hash == xs[i].hash,
        forall|k: int| 0 <= k < i ==> (#[trigger] xs[k]).hash != xs[i].hash,
    ensures
        owner_lookup(xs.update(i, e), h2) == (if h2 == e.hash {
            Some(e)
        } else {
            owner_lookup(xs, h2)
        }),
    decreases i,
{
    if i == 0 {
        assert(xs.update(0, e)[0] == e);
        assert(xs.update(0, e).drop_first() =~= xs.drop_first());
    } else {
        lemma_owner_update_one(xs.drop_first(), i - 1, e, h2);
        assert(xs.update(i, e)[0] == xs[0]);
        assert(xs.update(i, e).drop_first() =~= xs.drop_first().update(i - 1, e));
    }
}

/// Find the index of the first glyph owner entry under hash `h`.
pub fn owner_find(xs: &Vec<OwnerEntry>, h: &Vec<u8>) -> (r: Option<usize>)
    ensures
        match r {
            Some(i) => i < xs.deep_view().len() && xs.deep_view()[i as int].hash == h@ && (forall|
                k: int,
            |
                0 <= k < i ==> (#[trigger] xs.deep_view()[k]).hash != h@) && owner_lookup(
                xs.deep_view(),
                h@,
            ) == Some(xs.deep_view()[i as int]),
            None => owner_lookup(xs.deep_view(), h@) is None && (forall|k: int|
                0 <= k < xs.deep_view().len() ==> (#[trigger] xs.deep_view()[k]).hash != h@),
        },
{
    let mut i: usize = 0;
    while i < xs.len()
        invariant
            i <= xs@.len(),
            forall|k: int| 0 <= k < i ==> (#[trigger] xs.deep_view()[k]).hash != h@,
        decreases xs@.len() - i,
    {
        if bytes_eq(&xs[i].hash, h) {
            proof {
                assert(xs.deep_view()[i as int].hash == h@);
                lemma_owner_at(xs.deep_view(), h@, i as int);
            }
            return Some(i);
        }
        proof {
            assert(xs.deep_view()[i as int].hash != h@);
        }
        i += 1;
    }
    proof {
        lemma_owner_none(xs.deep_view(), h@);
    }
    None
}

/// The first glyph minter entry under hash `h`, if any.
pub open spec fn minter_lookup(xs: Seq<MinterEntryV>, h: Seq<u8>) -> Option<MinterEntryV>
    decreases xs.len(),
{
    if xs.len() == 0 {
        None
    } else if xs[0].hash == h {
        Some(xs[0])
    } else {
        minter_lookup(xs.drop_first(), h)
    }
}

/// No two glyph minter entries share a hash.
pub open spec fn minter_unique(xs: Seq<MinterEntryV>) -> bool {
    forall|i: int, j: int|
        0 <= i < j < xs.len() ==> (#[trigger] xs[i]).hash != (#[trigger] xs[j]).hash
}

pub proof fn lemma_minter_at(xs: Seq<MinterEntryV>, h: Seq<u8>, i: int)
    requires
        0 <= i < xs.len(),
        xs[i].hash == h,
        forall|k: int| 0 <= k < i ==> (#[trigger] xs[k]).hash != h,
    ensures
        minter_lookup(xs, h) == Some(xs[i]),
    decreases i,
{
    if i > 0 {
        lemma_minter_at(xs.drop_first(), h, i - 1);
    }
}

pub proof fn lemma_minter_none(xs: Seq<MinterEntryV>, h: Seq<u8>)
    requires
        forall|k: int| 0 <= k < xs.len() ==> (#[trigger] xs[k]).hash != h,
    ensures
        minter_lookup(xs, h) is None,
    decreases xs.len(),
{
    if xs.len() > 0 {
        lemma_minter_none(xs.drop_first(), h);
    }
}

/// What one hash resolves to after a glyph minter entry is appended.
pub proof fn lemma_minter_push_one(xs: Seq<MinterEntryV>, e: MinterEntryV, h2: Seq<u8>)
    ensures
        minter_lookup(xs.push(e), h2) == (if minter_lookup(xs, h2) is Some {
            minter_lookup(xs, h2)
        } else if h2 == e.hash {
            Some(e)
        } else {
            None
        }),
    decreases xs.len(),
{
    if xs.len() == 0 {
        assert(xs.push(e)[0] == e);
        assert(xs.push(e).drop_first() =~= Seq::<MinterEntryV>::empty());
        assert(minter_lookup(xs.push(e).drop_first(), h2) is None);
    } else {
        lemma_minter_push_one(xs.drop_first(), e, h2);
        assert(xs.push(e)[0] == xs[0]);
        assert(xs.push(e).drop_first() =~= xs.drop_first().push(e));
    }
}

/// Find the index of the first glyph minter entry under hash `h`.
pub fn minter_find(xs: &Vec<MinterEntry>, h: &Vec<u8>) -> (r: Option<usize>)
    ensures
        match r {
            Some(i) => i < xs.deep_view().len() && xs.deep_view()[i as int].hash == h@ && (forall|
                k: int,
            |
                0 <= k < i ==> (#[trigger] xs.deep_view()[k]).hash != h@) && minter_lookup(
                xs.deep_view(),
                h@,
            ) == Some(xs.deep_view()[i as int]),
            None => minter_lookup(xs.deep_view(), h@) is None && (forall|k: int|
                0 <= k < xs.deep_view().len() ==> (#[trigger] xs.deep_view()[k]).hash != h@),
        },
{
    let mut i: usize = 0;
    while i < xs.len()
        invariant
            i <= xs@.len(),
            forall|k: int| 0 <= k < i ==> (#[trigger] xs.deep_view()[k]).hash != h@,
        decreases xs@.len() - i,
    {
        if bytes_eq(&xs[i].hash, h) {
            proof {
                assert(xs.deep_view()[i as int].hash == h@);
                lemma_minter_at(xs.deep_view(), h@, i as int);
            }
            return Some(i);
        }
        proof {
            assert(xs.deep_view()[i as int].hash != h@);
        }
        i += 1;
    }
    proof {
        lemma_minter_none(xs.deep_view(), h@);
    }
    None
}

/// The first marketplace offer entry under hash `h`, if any.
pub open spec fn offer_lookup(xs: Seq<OfferEntryV>, h: Seq<u8>) -> Option<OfferEntryV>
    decreases xs.len(),
{
    if xs.len() == 0 {
        None
    } else if xs[0].hash == h {
        Some(xs[0])
    } else {
        offer_lookup(xs.drop_first(), h)
    }
}

/// No two marketplace offer entries share a hash.
pub open spec fn offer_unique(xs: Seq<OfferEntryV>) -> bool {
    forall|i: int, j: int|
        0 <= i < j < xs.len() ==> (#[trigger] xs[i]).hash != (#[trigger] xs[j]).hash
}

pub proof fn lemma_offer_at(xs: Seq<OfferEntryV>, h: Seq<u8>, i: int)
    requires
        0 <= i < xs.len(),
        xs[i].hash == h,
        forall|k: int| 0 <= k < i ==> (#[trigger] xs[k]).hash != h,
    ensures
        offer_lookup(xs, h) == Some(xs[i]),
    decreases i,
{
    if i > 0 {
        lemma_offer_at(xs.drop_first(), h, i - 1);
    }
}

pub proof fn lemma_offer_none(xs: Seq<OfferEntryV>, h: Seq<u8>)
    requires
        forall|k: int| 0 <= k < xs.len() ==> (#[trigger] xs[k]).hash != h,
    ensures
        offer_lookup(xs, h) is None,
    decreases xs.len(),
{
    if xs.len() > 0 {
        lemma_offer_none(xs.drop_first(), h);
    }
}

/// What one hash resolves to after the entry at index `i` is removed.
pub proof fn lemma_offer_remove_one(xs: Seq<OfferEntryV>, i: int, h2: Seq<u8>)
    requires
        0 <= i < xs.len(),
        offer_unique(xs),
    ensures
        offer_lookup(xs.remove(i), h2) == (if h2 == xs[i].hash {
            None
        } else {
            offer_lookup(xs, h2)
        }),
    decreases i,
{
    if i == 0 {
        assert(xs.remove(0) =~= xs.drop_first());
        if h2 == xs[0].hash {
            assert(forall|k: int|
                0 <= k < xs.drop_first().len() ==> (#[trigger] xs.drop_first()[k]).hash
                    != xs[0].hash);
            lemma_offer_none(xs.drop_first(), xs[0].hash);
        }
    } else {
        assert(offer_unique(xs.drop_first()));
        lemma_offer_remove_one(xs.drop_first(), i - 1, h2);
        assert(xs.remove(i)[0] == xs[0]);
        assert(xs.remove(i).drop_first() =~= xs.drop_first().remove(i - 1));
    }
}

/// Find the index of the first marketplace offer entry under hash `h`.
pub fn offer_find(xs: &Vec<OfferEntry>, h: &Vec<u8>) -> (r: Option<usize>)
    ensures
        match r {
            Some(i) => i < xs.deep_view().len() && xs.deep_view()[i as int].hash == h@ && (forall|
                k: int,
            |
                0 <= k < i ==> (#[trigger] xs.deep_view()[k]).hash != h@) && offer_lookup(
                xs.deep_view(),
                h@,
            ) == Some(xs.deep_view()[i as int]),
            None => offer_lookup(xs.deep_view(), h@) is None && (forall|k: int|
                0 <= k < xs.deep_view().len() ==> (#[trigger] xs.deep_view()[k]).hash != h@),
        },
{
    let mut i: usize = 0;
    while i < xs.len()
        invariant
            i <= xs@.len(),
            forall|k: int| 0 <= k < i ==> (#[trigger] xs.deep_view()[k]).hash != h@,
        decreases xs@.len() - i,
    {
        if bytes_eq(&xs[i].hash, h) {
            proof {
                assert(xs.deep_view()[i as int].hash == h@);
                lemma_offer_at(xs.deep_view(), h@, i as int);
            }
            return Some(i);
        }
        proof {
            assert(xs.deep_view()[i as int].hash != h@);
        }
        i += 1;
    }
    proof {
        lemma_offer_none(xs.deep_view(), h@);
    }
    None
}

/// Color units locked in persisted drafts for (miner `m`, color `c`).
pub open spec fn drafts_locked(ds: Seq<DraftEntryV>, m: u64, c: u32) -> int
    decreases ds.len(),
{
    if ds.len() == 0 {
        0
    } else {
        comp_count(ds[0].colors, m, c) + drafts_locked(ds.drop_first(), m, c)
    }
}

/// Color units locked in live glyphs for (miner `m`, color `c`).
pub open spec fn glyphs_locked(gs: Seq<GlyphEntryV>, m: u64, c: u32) -> int
    decreases gs.len(),
{
    if gs.len() == 0 {
        0
    } else {
        comp_count(gs[0].glyph.colors, m, c) + glyphs_locked(gs.drop_first(), m, c)
    }
}

/// Every unit of (miner `m`, color `c`) accounted for: spendable balances
/// plus units locked in live drafts and glyphs.
pub open spec fn holdings(s: StoreV, m: u64, c: u32) -> int {
    crate::balances::bal_sum(s.balances, m, c) + drafts_locked(s.drafts, m, c) + glyphs_locked(
        s.glyphs,
        m,
        c,
    )
}

pub proof fn lemma_drafts_locked_push(ds: Seq<DraftEntryV>, e: DraftEntryV, m: u64, c: u32)
    ensures
        drafts_locked(ds.push(e), m, c) == drafts_locked(ds, m, c) + comp_count(e.colors, m, c),
    decreases ds.len(),
{
    if ds.len() == 0 {
        assert(ds.push(e)[0] == e);
        assert(ds.push(e).drop_first() =~= Seq::<DraftEntryV>::empty());
        assert(drafts_locked(ds.push(e).drop_first(), m, c) == 0);
    } else {
        lemma_drafts_locked_push(ds.drop_first(), e, m, c);
        assert(ds.push(e)[0] == ds[0]);
        assert(ds.push(e).drop_first() =~= ds.drop_first().push(e));
    }
}

pub proof fn lemma_drafts_locked_remove(ds: Seq<DraftEntryV>, i: int, m: u64, c: u32)
    requires
        0 <= i < ds.len(),
    ensures
        drafts_locked(ds.remove(i), m, c) == drafts_locked(ds, m, c) - comp_count(
            ds[i].colors,
            m,
            c,
        ),
    decreases i,
{
    if i == 0 {
        assert(ds.remove(0) =~= ds.drop_first());
    } else {
        lemma_drafts_locked_remove(ds.drop_first(), i - 1, m, c);
        assert(ds.remove(i)[0] == ds[0]);
        assert(ds.remove(i).drop_first() =~= ds.drop_first().remove(i - 1));
    }
}

pub proof fn lemma_drafts_locked_update(ds: Seq<DraftEntryV>, i: int, e: DraftEntryV, m: u64, c: u32)
    requires
        0 <= i < ds.len(),
    ensures
        drafts_locked(ds.update(i, e), m, c) == drafts_locked(ds, m, c) - comp_count(
            ds[i].colors,
            m,
            c,
        ) + comp_count(e.colors, m, c),
    decreases i,
{
    if i == 0 {
        assert(ds.update(0, e)[0] == e);
        assert(ds.update(0, e).drop_first() =~= ds.drop_first());
    } else {
        lemma_drafts_locked_update(ds.drop_first(), i - 1, e, m, c);
        assert(ds.update(i, e)[0] == ds[0]);
        assert(ds.update(i, e).drop_first() =~= ds.drop_first().update(i - 1, e));
    }
}

pub proof fn lemma_glyphs_locked_push(gs: Seq<GlyphEntryV>, e: GlyphEntryV, m: u64, c: u32)
    ensures
        glyphs_locked(gs.push(e), m, c) == glyphs_locked(gs, m, c) + comp_count(
            e.glyph.colors,
            m,
            c,
        ),
    decreases gs.len(),
{
    if gs.len() == 0 {
        assert(gs.push(e)[0] == e);
        assert(gs.push(e).drop_first() =~= Seq::<GlyphEntryV>::empty());
        assert(glyphs_locked(gs.push(e).drop_first(), m, c) == 0);
    } else {
        lemma_glyphs_locked_push(gs.drop_first(), e, m, c);
        assert(gs.push(e)[0] == gs[0]);
        assert(gs.push(e).drop_first() =~= gs.drop_first().push(e));
    }
}

pub proof fn lemma_glyphs_locked_remove(gs: Seq<GlyphEntryV>, i: int, m: u64, c: u32)
    requires
        0 <= i < gs.len(),
    ensures
        glyphs_locked(gs.remove(i), m, c) == glyphs_locked(gs, m, c) - comp_count(
            gs[i].glyph.colors,
            m,
            c,
        ),
    decreases i,
{
    if i == 0 {
        assert(gs.remove(0) =~= gs.drop_first());
    } else {
        lemma_glyphs_locked_remove(gs.drop_first(), i - 1, m, c);
        assert(gs.remove(i)[0] == gs[0]);
        assert(gs.remove(i).drop_first() =~= gs.drop_first().remove(i - 1));
    }
}

pub proof fn lemma_glyphs_locked_update(gs: Seq<GlyphEntryV>, i: int, e: GlyphEntryV, m: u64, c: u32)
    requires
        0 <= i < gs.len(),
    ensures
        glyphs_locked(gs.update(i, e), m, c) == glyphs_locked(gs, m, c) - comp_count(
            gs[i].glyph.colors,
            m,
            c,
        ) + comp_count(e.glyph.colors, m, c),
    decreases i,
{
    if i == 0 {
        assert(gs.update(0, e)[0] == e);
        assert(gs.update(0, e).drop_first() =~= gs.drop_first());
    } else {
        lemma_glyphs_locked_update(gs.drop_first(), i - 1, e, m, c);
        assert(gs.update(i, e)[0] == gs[0]);
        assert(gs.update(i, e).drop_first() =~= gs.drop_first().update(i - 1, e));
    }
}

/// A well-formed store: unique keys in every table, well-formed compositions
/// in every draft and glyph, and a glyph record exactly where an owner record
/// stands (absence of the owner means the glyph is not live).
pub open spec fn wf_store(s: StoreV) -> bool {
    &&& bal_unique(s.balances)
    &&& draft_unique(s.drafts)
    &&& glyph_unique(s.glyphs)
    &&& owner_unique(s.owners)
    &&& minter_unique(s.minters)
    &&& offer_unique(s.offers)
    &&& forall|i: int| 0 <= i < s.drafts.len() ==> wf_comp((#[trigger] s.drafts[i]).colors)
    &&& forall|i: int| 0 <= i < s.glyphs.len() ==> wf_comp((#[trigger] s.glyphs[i]).glyph.colors)
    &&& forall|i: int|
        0 <= i < s.owners.len() ==> glyph_lookup(s.glyphs, (#[trigger] s.owners[i]).hash) is Some
    &&& forall|i: int|
        0 <= i < s.glyphs.len() ==> owner_lookup(s.owners, (#[trigger] s.glyphs[i]).hash) is Some
}

/// A hash resolves exactly when some entry carries it, and what it resolves
/// to carries it.
pub proof fn lemma_glyph_lookup_iff(xs: Seq<GlyphEntryV>, h: Seq<u8>)
    ensures
        (glyph_lookup(xs, h) is Some) <==> (exists|k: int|
            0 <= k < xs.len() && (#[trigger] xs[k]).hash == h),
        glyph_lookup(xs, h) matches Some(e) ==> e.hash == h,
    decreases xs.len(),
{
    if xs.len() > 0 {
        lemma_glyph_lookup_iff(xs.drop_first(), h);
        if xs[0].hash == h {
        } else {
            if glyph_lookup(xs, h) is Some {
                let k = choose|k: int|
                    0 <= k < xs.drop_first().len() && (#[trigger] xs.drop_first()[k]).hash == h;
                assert(xs[k + 1].hash == h);
            }
            if exists|k: int| 0 <= k < xs.len() && (#[trigger] xs[k]).hash == h {
                let k = choose|k: int| 0 <= k < xs.len() && (#[trigger] xs[k]).hash == h;
                assert(xs.drop_first()[k - 1].hash == h);
            }
        }
    }
}

/// Removing an entry keeps hashes pairwise distinct.
pub proof fn lemma_glyph_remove_unique(xs: Seq<GlyphEntryV>, i: int)
    requires
        0 <= i < xs.len(),
        glyph_unique(xs),
    ensures
        glyph_unique(xs.remove(i)),
{
    assert forall|a: int, b: int| 0 <= a < b < xs.remove(i).len() implies (#[trigger] xs.remove(
        i,
    )[a]).hash != (#[trigger] xs.remove(i)[b]).hash by {
        assert(xs.remove(i)[a] == (if a < i {
            xs[a]
        } else {
            xs[a + 1]
        }));
        assert(xs.remove(i)[b] == (if b < i {
            xs[b]
        } else {
            xs[b + 1]
        }));
    }
}

/// Replacing an entry by one with the same hash keeps hashes distinct.
pub proof fn lemma_glyph_update_unique(xs: Seq<GlyphEntryV>, i: int, e: GlyphEntryV)
    requires
        0 <= i < xs.len(),
        e.hash == xs[i].hash,
        glyph_unique(xs),
    ensures
        glyph_unique(xs.update(i, e)),
{
}

/// A hash resolves exactly when some entry carries it, and what it resolves
/// to carries it.
pub proof fn lemma_owner_lookup_iff(xs: Seq<OwnerEntryV>, h: Seq<u8>)
    ensures
        (owner_lookup(xs, h) is Some) <==> (exists|k: int|
            0 <= k < xs.len() && (#[trigger] xs[k]).hash == h),
        owner_lookup(xs, h) matches Some(e) ==> e.hash == h,
    decreases xs.len(),
{
    if xs.len() > 0 {
        lemma_owner_lookup_iff(xs.drop_first(), h);
        if xs[0].hash == h {
        } else {
            if owner_lookup(xs, h) is Some {
                let k = choose|k: int|
                    0 <= k < xs.drop_first().len() && (#[trigger] xs.drop_first()[k]).hash == h;
                assert(xs[k + 1].hash == h);
            }
            if exists|k: int| 0 <= k < xs.len() && (#[trigger] xs[k]).hash == h {
                let k = choose|k: int| 0 <= k < xs.len() && (#[trigger] xs[k]).hash == h;
                assert(xs.drop_first()[k - 1].hash == h);
            }
        }
    }
}

/// Removing an entry keeps hashes pairwise distinct.
pub proof fn lemma_owner_remove_unique(xs: Seq<OwnerEntryV>, i: int)
    requires
        0 <= i < xs.len(),
        owner_unique(xs),
    ensures
        owner_unique(xs.remove(i)),
{
    assert forall|a: int, b: int| 0 <= a < b < xs.remove(i).len() implies (#[trigger] xs.remove(
        i,
    )[a]).hash != (#[trigger] xs.remove(i)[b]).hash by {
        assert(xs.remove(i)[a] == (if a < i {
            xs[a]
        } else {
            xs[a + 1]
        }));
        assert(xs.remove(i)[b] == (if b < i {
            xs[b]
        } else {
            xs[b + 1]
        }));
    }
}

/// Replacing an entry by one with the same hash keeps hashes distinct.
pub proof fn lemma_owner_update_unique(xs: Seq<OwnerEntryV>, i: int, e: OwnerEntryV)
    requires
        0 <= i < xs.len(),
        e.hash == xs[i].hash,
        owner_unique(xs),
    ensures
        owner_unique(xs.update(i, e)),
{
}

/// Removing an entry keeps hashes pairwise distinct.
pub proof fn lemma_offer_remove_unique(xs: Seq<OfferEntryV>, i: int)
    requires
        0 <= i < xs.len(),
        offer_unique(xs),
    ensures
        offer_unique(xs.remove(i)),
{
    assert forall|a: int, b: int| 0 <= a < b < xs.remove(i).len() implies (#[trigger] xs.remove(
        i,
    )[a]).hash != (#[trigger] xs.remove(i)[b]).hash by {
        assert(xs.remove(i)[a] == (if a < i {
            xs[a]
        } else {
            xs[a + 1]
        }));
        assert(xs.remove(i)[b] == (if b < i {
            xs[b]
        } else {
            xs[b + 1]
        }));
    }
}

/// An id resolves exactly when some draft entry carries it.
pub proof fn lemma_draft_lookup_iff(ds: Seq<DraftEntryV>, id: u64)
    ensures
        (draft_lookup(ds, id) is Some) <==> (exists|k: int|
            0 <= k < ds.len() && (#[trigger] ds[k]).id == id),
        draft_lookup(ds, id) matches Some(e) ==> e.id == id,
    decreases ds.len(),
{
    if ds.len() > 0 {
        lemma_draft_lookup_iff(ds.drop_first(), id);
        if ds[0].id == id {
        } else {
            if draft_lookup(ds, id) is Some {
                let k = choose|k: int|
                    0 <= k < ds.drop_first().len() && (#[trigger] ds.drop_first()[k]).id == id;
                assert(ds[k + 1].id == id);
            }
            if exists|k: int| 0 <= k < ds.len() && (#[trigger] ds[k]).id == id {
                let k = choose|k: int| 0 <= k < ds.len() && (#[trigger] ds[k]).id == id;
                assert(ds.drop_first()[k - 1].id == id);
            }
        }
    }
}

/// Removing a draft entry keeps ids pairwise distinct.
pub proof fn lemma_draft_remove_unique(ds: Seq<DraftEntryV>, i: int)
    requires
        0 <= i < ds.len(),
        draft_unique(ds),
    ensures
        draft_unique(ds.remove(i)),
{
    assert forall|a: int, b: int| 0 <= a < b < ds.remove(i).len() implies (#[trigger] ds.remove(
        i,
    )[a]).id != (#[trigger] ds.remove(i)[b]).id by {
        assert(ds.remove(i)[a] == (if a < i {
            ds[a]
        } else {
            ds[a + 1]
        }));
        assert(ds.remove(i)[b] == (if b < i {
            ds[b]
        } else {
            ds[b + 1]
        }));
    }
}

/// Replacing a draft entry by one with the same id keeps ids distinct.
pub proof fn lemma_draft_update_unique(ds: Seq<DraftEntryV>, i: int, e: DraftEntryV)
    requires
        0 <= i < ds.len(),
        e.id == ds[i].id,
        draft_unique(ds),
    ensures
        draft_unique(ds.update(i, e)),
{
}

/// Copy a hash.
pub fn clone_bytes(v: &Vec<u8>) -> (out: Vec<u8>)
    ensures
        out@ == v@,
{
    let mut out: Vec<u8> = Vec::new();
    let mut i: usize = 0;
    while i < v.len()
        invariant
            i <= v@.len(),
            out@ =~= v@.take(i as int),
        decreases v@.len() - i,
    {
        out.push(v[i]);
        i += 1;
    }
    proof {
        assert(v@.take(v@.len() as int) =~= v@);
    }
    out
}

} // verus!
