//! The glyph pipeline: crafting draft compositions, finalizing them into
//! content-addressed glyphs, transferring ownership, reading records back,
//! and scraping a glyph or draft into color credits in bounded batches.
//!
//! The host authenticates the acting address before calling any mutating
//! operation here.

use vstd::prelude::*;
use crate::types::{
    addr_or, BalanceRow, ColorIndexesV, DraftEntry, DraftEntryV, Error, HashId, MinerColors,
    MinerColorsV, Store, MAX_PAYMENT_COUNT, MAX_RETENTION,
};
use crate::balances::{
    bal_amount, bal_get, bal_set, bal_sum, bal_copy, bal_unique, bal_upsert,
    lemma_bal_upsert_sum, lemma_bal_upsert_unique,
};
use crate::comp::{
    clone_comp, colors_unique, comp_count, comp_merge, comp_merge_into, colors_count, lemma_comp_merge_count,
    lemma_comp_merge_wf, wf_comp,
};
use crate::store::{
    clone_bytes, draft_find, draft_lookup, draft_unique, drafts_locked, glyph_lookup,
    glyphs_locked, holdings, lemma_draft_push, lemma_draft_remove, lemma_draft_remove_unique,
    lemma_draft_update, lemma_drafts_locked_push, lemma_drafts_locked_remove,
    lemma_drafts_locked_update, lemma_glyph_lookup_iff, lemma_glyph_push, lemma_glyph_push_one,
    lemma_glyphs_locked_push, lemma_minter_push_one, lemma_owner_lookup_iff,
    lemma_owner_push_one, lemma_owner_update_one, lemma_owner_update_unique, minter_find,
    minter_lookup, minter_unique, owner_find, owner_lookup, wf_store, glyph_find,
    lemma_draft_lookup_iff, lemma_draft_remove_one, lemma_draft_update_unique,
    lemma_glyph_update, lemma_glyph_update_one, lemma_glyph_update_unique,
    glyph_unique, lemma_glyphs_locked_update, lemma_glyph_remove, lemma_glyph_remove_one,
    lemma_glyph_remove_unique, lemma_glyphs_locked_remove, lemma_owner_remove_one,
    lemma_owner_remove_unique, lemma_offer_remove_one, lemma_offer_remove_unique, offer_find,
    offer_lookup, offer_unique, owner_unique,
};
use crate::types::{Glyph, GlyphEntry, GlyphEntryV, GlyphVal, MinterEntry, MinterEntryV,
    OfferEntryV, OwnerEntry, OwnerEntryV, StoreV};
use crate::encode::{coverage, encode, encoded, lemma_coverage_nonneg, writes_of};
use crate::hashing::{sha256, sha256_of};

verus! {

/// The sum of an address identifier's 8 little-endian encoding bytes.
pub open spec fn byte_sum(a: u64) -> int {
    (a as int % 256) + ((a as int / 0x100) % 256) + ((a as int / 0x10000) % 256) + ((a as int
        / 0x1000000) % 256) + ((a as int / 0x100000000) % 256) + ((a as int / 0x10000000000) % 256)
        + ((a as int / 0x1000000000000) % 256) + ((a as int / 0x100000000000000) % 256)
}

/// A fresh draft id: the ledger timestamp plus a wrapping byte-sum of the
/// acting address's encoding.  Deliberately not collision-resistant: two
/// calls in the same timestamp from one address collide.
pub open spec fn derived_id(now: u64, addr: u64) -> u64 {
    ((now + byte_sum(addr)) % 0x10000000000000000) as u64
}

/// Compute a fresh draft id from the timestamp and the acting address.
pub fn derive_id(now: u64, addr: u64) -> (id: u64)
    ensures
        id == derived_id(now, addr),
{
    let s: u64 = (addr % 256) + ((addr / 0x100) % 256) + ((addr / 0x10000) % 256) + ((addr
        / 0x1000000) % 256) + ((addr / 0x100000000) % 256) + ((addr / 0x10000000000) % 256) + ((
    addr / 0x1000000000000) % 256) + ((addr / 0x100000000000000) % 256);
    proof {
        assert(s == byte_sum(addr));
    }
    now.wrapping_add(s)
}

/// Replay the debits of one miner's incoming color list against the ledger:
/// each entry debits (miner, crafter, color) by its index count.  `None`
/// means some debit would underflow.
pub open spec fn debit_colors(
    rows: Option<Seq<BalanceRow>>,
    crafter: u64,
    m: u64,
    colors: Seq<ColorIndexesV>,
) -> Option<Seq<BalanceRow>>
    decreases colors.len(),
{
    match rows {
        None => None,
        Some(rs) => {
            if colors.len() == 0 {
                Some(rs)
            } else {
                let ci = colors[0];
                let cur = bal_amount(rs, m, crafter, ci.color);
                if (cur as int) < ci.indexes.len() {
                    None
                } else {
                    debit_colors(
                        Some(
                            bal_upsert(
                                rs,
                                m,
                                crafter,
                                ci.color,
                                (cur - ci.indexes.len()) as u32,
                            ),
                        ),
                        crafter,
                        m,
                        colors.drop_first(),
                    )
                }
            }
        },
    }
}

/// Replay the debits of a whole incoming composition, miner by miner.
pub open spec fn debit_comp(
    rows: Option<Seq<BalanceRow>>,
    crafter: u64,
    comp: Seq<MinerColorsV>,
) -> Option<Seq<BalanceRow>>
    decreases comp.len(),
{
    match rows {
        None => None,
        Some(rs) => {
            if comp.len() == 0 {
                Some(rs)
            } else {
                debit_comp(
                    debit_colors(Some(rs), crafter, comp[0].miner, comp[0].colors),
                    crafter,
                    comp.drop_first(),
                )
            }
        },
    }
}

/// Successful debits subtract exactly the committed counts from each
/// (miner, color) total, and keep row uniqueness.
pub proof fn lemma_debit_colors_effects(
    rs: Seq<BalanceRow>,
    crafter: u64,
    m: u64,
    colors: Seq<ColorIndexesV>,
)
    requires
        bal_unique(rs),
        debit_colors(Some(rs), crafter, m, colors) is Some,
    ensures
        bal_unique(debit_colors(Some(rs), crafter, m, colors)->Some_0),
        forall|m2: u64, c2: u32|
            #[trigger] bal_sum(debit_colors(Some(rs), crafter, m, colors)->Some_0, m2, c2)
                == bal_sum(rs, m2, c2) - (if m2 == m {
                colors_count(colors, c2)
            } else {
                0
            }),
    decreases colors.len(),
{
    if colors.len() == 0 {
    } else {
        let ci = colors[0];
        let cur = bal_amount(rs, m, crafter, ci.color);
        let rs1 = bal_upsert(rs, m, crafter, ci.color, (cur - ci.indexes.len()) as u32);
        lemma_bal_upsert_unique(rs, m, crafter, ci.color, (cur - ci.indexes.len()) as u32);
        lemma_bal_upsert_sum(rs, m, crafter, ci.color, (cur - ci.indexes.len()) as u32);
        lemma_debit_colors_effects(rs1, crafter, m, colors.drop_first());
        assert forall|m2: u64, c2: u32| true implies #[trigger] bal_sum(
            debit_colors(Some(rs), crafter, m, colors)->Some_0,
            m2,
            c2,
        ) == bal_sum(rs, m2, c2) - (if m2 == m {
            colors_count(colors, c2)
        } else {
            0
        }) by {
            assert(colors_count(colors, c2) == (if ci.color == c2 {
                ci.indexes.len() as int
            } else {
                0
            }) + colors_count(colors.drop_first(), c2));
            assert(bal_sum(rs1, m2, c2) == bal_sum(rs, m2, c2) + (if m2 == m && c2 == ci.color {
                (cur - ci.indexes.len()) - cur
            } else {
                0
            }));
        }
    }
}

/// Successful debits of a whole composition subtract exactly its counts.
pub proof fn lemma_debit_comp_effects(rs: Seq<BalanceRow>, crafter: u64, comp: Seq<MinerColorsV>)
    requires
        bal_unique(rs),
        debit_comp(Some(rs), crafter, comp) is Some,
    ensures
        bal_unique(debit_comp(Some(rs), crafter, comp)->Some_0),
        forall|m2: u64, c2: u32|
            #[trigger] bal_sum(debit_comp(Some(rs), crafter, comp)->Some_0, m2, c2) == bal_sum(
                rs,
                m2,
                c2,
            ) - comp_count(comp, m2, c2),
    decreases comp.len(),
{
    if comp.len() == 0 {
    } else {
        let step = debit_colors(Some(rs), crafter, comp[0].miner, comp[0].colors);
        if step is None {
            assert(debit_comp(None::<Seq<BalanceRow>>, crafter, comp.drop_first()) is None);
        }
        assert(step is Some);
        lemma_debit_colors_effects(rs, crafter, comp[0].miner, comp[0].colors);
        lemma_debit_comp_effects(step->Some_0, crafter, comp.drop_first());
        assert forall|m2: u64, c2: u32| true implies #[trigger] bal_sum(
            debit_comp(Some(rs), crafter, comp)->Some_0,
            m2,
            c2,
        ) == bal_sum(rs, m2, c2) - comp_count(comp, m2, c2) by {
            assert(comp_count(comp, m2, c2) == (if comp[0].miner == m2 {
                colors_count(comp[0].colors, c2)
            } else {
                0
            }) + comp_count(comp.drop_first(), m2, c2));
        }
    }
}

/// Apply an incoming composition's debits to a staged copy of the ledger.
/// Returns whether every debit held; a failed run leaves the staged rows in
/// an intermediate state the caller discards.
fn apply_debits(rows: &mut Vec<BalanceRow>, crafter: u64, inc: &Vec<MinerColors>) -> (ok: bool)
    ensures
        ok ==> Some(final(rows)@) == debit_comp(Some(old(rows)@), crafter, inc.deep_view()),
        !ok ==> debit_comp(Some(old(rows)@), crafter, inc.deep_view()) is None,
{
    let ghost rows0 = old(rows)@;
    let ghost incv = inc.deep_view();
    let mut i: usize = 0;
    proof {
        assert(incv.skip(0) =~= incv);
    }
    while i < inc.len()
        invariant
            i <= inc@.len(),
            incv == inc.deep_view(),
            rows0 == old(rows)@,
            debit_comp(Some(rows@), crafter, incv.skip(i as int)) == debit_comp(
                Some(rows0),
                crafter,
                incv,
            ),
        decreases inc@.len() - i,
    {
        let mc = &inc[i];
        let ghost mcv = incv[i as int];
        proof {
            assert(mcv == inc@[i as int].deep_view());
            assert(incv.skip(i as int)[0] == mcv);
            assert(incv.skip(i as int).drop_first() =~= incv.skip(i as int + 1));
        }
        let mut j: usize = 0;
        proof {
            assert(mcv.colors.skip(0) =~= mcv.colors);
        }
        while j < mc.colors.len()
            invariant
                j <= mc.colors@.len(),
                i < inc@.len(),
                *mc == inc@[i as int],
                mcv == inc@[i as int].deep_view(),
                incv == inc.deep_view(),
                rows0 == old(rows)@,
                debit_comp(
                    debit_colors(Some(rows@), crafter, mcv.miner, mcv.colors.skip(j as int)),
                    crafter,
                    incv.skip(i as int + 1),
                ) == debit_comp(Some(rows0), crafter, incv),
            decreases mc.colors@.len() - j,
        {
            let ci = &mc.colors[j];
            let ghost civ = mcv.colors[j as int];
            proof {
                assert(civ == mc.colors@[j as int].deep_view());
                assert(mcv.colors.skip(j as int)[0] == civ);
                assert(mcv.colors.skip(j as int).drop_first() =~= mcv.colors.skip(j as int + 1));
            }
            let cur = bal_get(rows, mc.miner, crafter, ci.color);
            proof {
                assert(mc.miner == mcv.miner);
            }
            if (cur as usize) < ci.indexes.len() {
                proof {
                    assert(debit_colors(
                        Some(rows@),
                        crafter,
                        mcv.miner,
                        mcv.colors.skip(j as int),
                    ) is None);
                    assert(debit_comp(
                        None::<Seq<BalanceRow>>,
                        crafter,
                        incv.skip(i as int + 1),
                    ) is None);
                }
                return false;
            }
            bal_set(rows, mc.miner, crafter, ci.color, cur - (ci.indexes.len() as u32));
            j += 1;
        }
        proof {
            assert(mcv.colors.skip(mc.colors@.len() as int) =~= Seq::<ColorIndexesV>::empty());
        }
        i += 1;
    }
    proof {
        assert(incv.skip(inc@.len() as int) =~= Seq::<MinerColorsV>::empty());
    }
    true
}

/// What a craft call returns: the id of the persisted draft, or the merged
/// composition itself when the caller finalizes it in the same operation.
pub enum CraftResult {
    Id(u64),
    Colors(Vec<MinerColors>),
}

/// The base composition a craft call starts from: the referenced draft's,
/// or empty when no draft id is given.
pub open spec fn craft_base(drafts: Seq<DraftEntryV>, id: Option<u64>) -> Option<
    Seq<MinerColorsV>,
> {
    match id {
        None => Some(Seq::empty()),
        Some(i) => match draft_lookup(drafts, i) {
            Some(d) => Some(d.colors),
            None => None,
        },
    }
}

/// The id a persisting craft call resolves to.
pub open spec fn craft_id(now: u64, crafter: u64, id: Option<u64>) -> u64 {
    match id {
        Some(i) => i,
        None => derived_id(now, crafter),
    }
}

/// Units a write under `rid` displaces: the counts of a draft already stored
/// there, when the id was freshly derived rather than supplied.
pub open spec fn displaced_count(
    drafts: Seq<DraftEntryV>,
    id: Option<u64>,
    rid: u64,
    m: u64,
    c: u32,
) -> int {
    if id is Some {
        0
    } else {
        match draft_lookup(drafts, rid) {
            Some(d) => comp_count(d.colors, m, c),
            None => 0,
        }
    }
}

/// Craft: commit an incoming composition.  The caller pays for every
/// committed pixel index by a debit against (miner, crafter, color); the
/// incoming entries merge into the referenced draft (or an empty one), a
/// miner not yet present adopting its whole color list in one step.  With
/// `persist` the result is stored under the resolved draft id and the id
/// returned; otherwise the merged composition itself is returned for
/// immediate finalization, and a referenced draft is left as it was (its
/// retention refreshed).
pub fn glyph_craft(
    store: &mut Store,
    now: u64,
    crafter: u64,
    colors: &Vec<MinerColors>,
    id: Option<u64>,
    persist: bool,
) -> (r: Result<CraftResult, Error>)
    requires
        wf_store(old(store)@),
        wf_comp(colors.deep_view()),
    ensures
        wf_store(final(store)@),
        final(store)@.glyphs == old(store)@.glyphs,
        final(store)@.owners == old(store)@.owners,
        final(store)@.minters == old(store)@.minters,
        final(store)@.offers == old(store)@.offers,
        r is Err ==> *final(store) == *old(store),
        r == Err::<CraftResult, Error>(Error::NotFound) <==> craft_base(
            old(store)@.drafts,
            id,
        ) is None,
        r is Ok <==> (craft_base(old(store)@.drafts, id) is Some && debit_comp(
            Some(old(store)@.balances),
            crafter,
            colors.deep_view(),
        ) is Some),
        craft_base(old(store)@.drafts, id) matches Some(base) ==> {
            &&& (r == Err::<CraftResult, Error>(Error::InsufficientColor) <==> debit_comp(
                Some(old(store)@.balances),
                crafter,
                colors.deep_view(),
            ) is None)
            &&& (r is Ok ==> {
                let merged = comp_merge(base, colors.deep_view());
                let rid = craft_id(now, crafter, id);
                &&& Some(final(store)@.balances) == debit_comp(
                    Some(old(store)@.balances),
                    crafter,
                    colors.deep_view(),
                )
                &&& (persist ==> {
                    &&& r == Ok::<CraftResult, Error>(CraftResult::Id(rid))
                    &&& draft_lookup(final(store)@.drafts, rid) == Some(
                        DraftEntryV { id: rid, colors: merged, retention: MAX_RETENTION },
                    )
                    &&& forall|id2: u64|
                        id2 != rid ==> #[trigger] draft_lookup(final(store)@.drafts, id2)
                            == draft_lookup(old(store)@.drafts, id2)
                    &&& forall|m: u64, c: u32|
                        #[trigger] holdings(final(store)@, m, c) == holdings(old(store)@, m, c)
                            - displaced_count(old(store)@.drafts, id, rid, m, c)
                })
                &&& (!persist ==> {
                    &&& (r matches Ok(CraftResult::Colors(cv)) && cv.deep_view() == merged)
                    &&& (match id {
                        Some(i) => draft_lookup(final(store)@.drafts, i) matches Some(d)
                            && draft_lookup(old(store)@.drafts, i) matches Some(d0) && d
                            == (DraftEntryV {
                            id: d0.id,
                            colors: d0.colors,
                            retention: MAX_RETENTION,
                        }) && (forall|id2: u64|
                            id2 != i ==> #[trigger] draft_lookup(final(store)@.drafts, id2)
                                == draft_lookup(old(store)@.drafts, id2)),
                        None => final(store)@.drafts == old(store)@.drafts,
                    })
                    &&& forall|m: u64, c: u32|
                        #[trigger] holdings(final(store)@, m, c) == holdings(old(store)@, m, c)
                            - comp_count(colors.deep_view(), m, c)
                })
            })
        },
{
    let ghost incv = colors.deep_view();
    // Resolve the base composition; a supplied id must reference a draft.
    let (mut work, di): (Vec<MinerColors>, Option<usize>) = match id {
        None => (Vec::new(), None),
        Some(i) => {
            match draft_find(&store.drafts, i) {
                None => {
                    return Err(Error::NotFound);
                },
                Some(di) => (clone_comp(&store.drafts[di].colors), Some(di)),
            }
        },
    };
    let ghost base = work.deep_view();
    proof {
        match id {
            Some(i) => {
                assert(craft_base(old(store)@.drafts, id) == Some(base));
            },
            None => {
                assert(base =~= Seq::<MinerColorsV>::empty());
                assert(craft_base(old(store)@.drafts, id) == Some(base));
            },
        }
    }
    // Stage the debits; discard them wholesale on underflow.
    let mut scratch = bal_copy(&store.balances);
    if !apply_debits(&mut scratch, crafter, colors) {
        return Err(Error::InsufficientColor);
    }
    proof {
        lemma_debit_comp_effects(old(store)@.balances, crafter, incv);
    }
    // Merge the incoming composition into the working one.
    comp_merge_into(&mut work, colors);
    proof {
        lemma_comp_merge_wf(base, incv);
        lemma_comp_merge_count(base, incv);
    }
    // Commit.
    store.balances = scratch;
    if persist {
        let rid = match id {
            Some(i) => i,
            None => derive_id(now, crafter),
        };
        let ghost pre_drafts = store@.drafts;
        let entry = DraftEntry { id: rid, colors: work, retention: MAX_RETENTION };
        let ghost ev = entry.deep_view();
        match draft_find(&store.drafts, rid) {
            Some(k) => {
                proof {
                    lemma_draft_update(pre_drafts, k as int, ev);
                    lemma_drafts_locked_update_all(pre_drafts, k as int, ev);
                }
                let slot = &mut store.drafts[k];
                *slot = entry;
                proof {
                    assert(store@.drafts =~~= pre_drafts.update(k as int, ev));
                }
            },
            None => {
                proof {
                    lemma_draft_push(pre_drafts, ev);
                    lemma_drafts_locked_push_all(pre_drafts, ev);
                }
                store.drafts.push(entry);
                proof {
                    assert(store@.drafts =~~= pre_drafts.push(ev));
                }
            },
        }
        proof {
            lemma_craft_persist_wrapup(old(store)@, store@, incv, base, crafter, id, rid);
        }
        Ok(CraftResult::Id(rid))
    } else {
        match di {
            Some(k) => {
                let ghost pre_drafts = store@.drafts;
                let ghost d0 = pre_drafts[k as int];
                let slot = &mut store.drafts[k];
                slot.retention = MAX_RETENTION;
                proof {
                    let ev = DraftEntryV {
                        id: d0.id,
                        colors: d0.colors,
                        retention: MAX_RETENTION,
                    };
                    assert(store@.drafts =~~= pre_drafts.update(k as int, ev));
                    lemma_draft_update(pre_drafts, k as int, ev);
                    lemma_drafts_locked_update_all(pre_drafts, k as int, ev);
                    lemma_craft_transient_wrapup(old(store)@, store@, incv, crafter);
                }
            },
            None => {
                proof {
                    lemma_craft_transient_wrapup(old(store)@, store@, incv, crafter);
                }
            },
        }
        Ok(CraftResult::Colors(work))
    }
}

/// Check that `from` is the recorded owner of the glyph under `hash`,
/// refreshing the owner record's retention.  Fails `NotFound` when no owner
/// record is live, `NotAuthorized` when the owner differs; a failed check
/// leaves the store untouched.
pub fn glyph_verify_ownership(store: &mut Store, from: u64, hash: &Vec<u8>) -> (r: Result<
    (),
    Error,
>)
    requires
        wf_store(old(store)@),
    ensures
        wf_store(final(store)@),
        r is Err ==> *final(store) == *old(store),
        r == Err::<(), Error>(Error::NotFound) <==> owner_lookup(old(store)@.owners, hash@) is None,
        r is Ok <==> (owner_lookup(old(store)@.owners, hash@) is Some && owner_lookup(
            old(store)@.owners,
            hash@,
        )->Some_0.owner == from),
        owner_lookup(old(store)@.owners, hash@) matches Some(o) ==> {
            &&& (r == Err::<(), Error>(Error::NotAuthorized) <==> o.owner != from)
            &&& (r is Ok ==> {
                &&& o.owner == from
                &&& owner_lookup(final(store)@.owners, hash@) == Some(
                    OwnerEntryV { hash: hash@, owner: o.owner, retention: MAX_RETENTION },
                )
                &&& forall|h2: Seq<u8>|
                    h2 != hash@ ==> #[trigger] owner_lookup(final(store)@.owners, h2)
                        == owner_lookup(old(store)@.owners, h2)
                &&& final(store)@.balances == old(store)@.balances
                &&& final(store)@.drafts == old(store)@.drafts
                &&& final(store)@.glyphs == old(store)@.glyphs
                &&& final(store)@.minters == old(store)@.minters
                &&& final(store)@.offers == old(store)@.offers
            })
        },
{
    match owner_find(&store.owners, hash) {
        None => Err(Error::NotFound),
        Some(oi) => {
            let recorded = store.owners[oi].owner;
            if recorded != from {
                return Err(Error::NotAuthorized);
            }
            let ghost pre = store@.owners;
            let ghost ev = OwnerEntryV { hash: hash@, owner: recorded, retention: MAX_RETENTION };
            let entry = OwnerEntry {
                hash: clone_bytes(hash),
                owner: recorded,
                retention: MAX_RETENTION,
            };
            proof {
                lemma_owner_update_all(pre, oi as int, ev);
                lemma_owner_update_unique(pre, oi as int, ev);
            }
            let slot = &mut store.owners[oi];
            *slot = entry;
            proof {
                assert(store@.owners =~~= pre.update(oi as int, ev));
                assert forall|i: int| 0 <= i < store@.owners.len() implies glyph_lookup(
                    store@.glyphs,
                    (#[trigger] store@.owners[i]).hash,
                ) is Some by {
                    assert(store@.owners[i].hash == pre[i].hash);
                }
            }
            Ok(())
        },
    }
}

/// Lift a same-hash owner replacement over all hashes.
proof fn lemma_owner_update_all(xs: Seq<OwnerEntryV>, i: int, e: OwnerEntryV)
    requires
        0 <= i < xs.len(),
        e.hash == xs[i].hash,
        forall|k: int| 0 <= k < i ==> (#[trigger] xs[k]).hash != xs[i].hash,
    ensures
        owner_lookup(xs.update(i, e), e.hash) == Some(e),
        forall|h2: Seq<u8>|
            h2 != e.hash ==> #[trigger] owner_lookup(xs.update(i, e), h2) == owner_lookup(xs, h2),
{
    lemma_owner_update_one(xs, i, e, e.hash);
    assert forall|h2: Seq<u8>| h2 != e.hash implies #[trigger] owner_lookup(xs.update(i, e), h2)
        == owner_lookup(xs, h2) by {
        lemma_owner_update_one(xs, i, e, h2);
    }
}

/// The composition a store call finalizes: the inline one, or the
/// referenced draft's.
pub open spec fn store_comp(
    s: StoreV,
    colors: Option<Seq<MinerColorsV>>,
    id: Option<u64>,
) -> Option<Seq<MinerColorsV>> {
    match colors {
        Some(cv) => Some(cv),
        None => match id {
            Some(i) => match draft_lookup(s.drafts, i) {
                Some(d) => Some(d.colors),
                None => None,
            },
            None => None,
        },
    }
}

/// Units freed by deleting the draft a store call consumed.
pub open spec fn consumed_draft_count(s: StoreV, id: Option<u64>, m: u64, c: u32) -> int {
    match id {
        Some(i) => match draft_lookup(s.drafts, i) {
            Some(d) => comp_count(d.colors, m, c),
            None => 0,
        },
        None => 0,
    }
}

/// Store: finalize a composition with a width into an immutable glyph.
/// The composition is encoded canonically, hashed, and committed under its
/// content hash: the recipient becomes the owner, the minter is recorded
/// only if the hash never had one (surviving scrape and re-mint), and a
/// consumed draft is deleted.  A hash that is already live fails `NotEmpty`.
pub fn glyph_store(
    store: &mut Store,
    minter: u64,
    to: Option<u64>,
    colors: Option<Vec<MinerColors>>,
    width: u32,
    id: Option<u64>,
) -> (r: Result<Vec<u8>, Error>)
    requires
        wf_store(old(store)@),
        match colors {
            Some(cs) => wf_comp(cs.deep_view()) && 3 * coverage(writes_of(cs.deep_view())) + 4
                <= u32::MAX,
            None => (match id {
                Some(i) => (draft_lookup(old(store)@.drafts, i) matches Some(d) ==> 3 * coverage(
                    writes_of(d.colors),
                ) + 4 <= u32::MAX),
                None => true,
            }),
        },
    ensures
        wf_store(final(store)@),
        r is Err ==> *final(store) == *old(store),
        final(store)@.balances == old(store)@.balances,
        final(store)@.offers == old(store)@.offers,
        r == Err::<Vec<u8>, Error>(Error::MissingId) <==> (colors is None && id is None),
        r == Err::<Vec<u8>, Error>(Error::NotFound) <==> (colors is None && id is Some
            && draft_lookup(old(store)@.drafts, id->Some_0) is None),
        store_comp(
            old(store)@,
            match colors {
                Some(cs) => Some(cs.deep_view()),
                None => None,
            },
            id,
        ) matches Some(cv) ==> {
            let h = sha256_of(encoded(cv, width));
            &&& (r == Err::<Vec<u8>, Error>(Error::NotEmpty) <==> owner_lookup(
                old(store)@.owners,
                h,
            ) is Some)
            &&& (r matches Ok(hash) ==> {
                &&& hash@ == h
                &&& owner_lookup(final(store)@.owners, h) == Some(
                    OwnerEntryV { hash: h, owner: addr_or(to, minter), retention: MAX_RETENTION },
                )
                &&& forall|h2: Seq<u8>|
                    h2 != h ==> #[trigger] owner_lookup(final(store)@.owners, h2) == owner_lookup(
                        old(store)@.owners,
                        h2,
                    )
                &&& glyph_lookup(final(store)@.glyphs, h) == Some(
                    GlyphEntryV {
                        hash: h,
                        glyph: GlyphVal {
                            width,
                            length: coverage(writes_of(cv)) as u32,
                            colors: cv,
                        },
                        retention: MAX_RETENTION,
                    },
                )
                &&& forall|h2: Seq<u8>|
                    h2 != h ==> #[trigger] glyph_lookup(final(store)@.glyphs, h2) == glyph_lookup(
                        old(store)@.glyphs,
                        h2,
                    )
                &&& minter_lookup(final(store)@.minters, h) == (
                match minter_lookup(old(store)@.minters, h) {
                    Some(m0) => Some(m0),
                    None => Some(MinterEntryV { hash: h, minter, retention: MAX_RETENTION }),
                })
                &&& forall|h2: Seq<u8>|
                    h2 != h ==> #[trigger] minter_lookup(final(store)@.minters, h2)
                        == minter_lookup(old(store)@.minters, h2)
                &&& (match id {
                    Some(i) => draft_lookup(final(store)@.drafts, i) is None && (forall|id2: u64|
                        id2 != i ==> #[trigger] draft_lookup(final(store)@.drafts, id2)
                            == draft_lookup(old(store)@.drafts, id2)),
                    None => final(store)@.drafts == old(store)@.drafts,
                })
                &&& forall|m: u64, c: u32|
                    #[trigger] holdings(final(store)@, m, c) == holdings(old(store)@, m, c)
                        + comp_count(cv, m, c) - consumed_draft_count(old(store)@, id, m, c)
            })
        },
        r is Ok <==> (store_comp(
            old(store)@,
            match colors {
                Some(cs) => Some(cs.deep_view()),
                None => None,
            },
            id,
        ) matches Some(cv) && owner_lookup(old(store)@.owners, sha256_of(encoded(cv, width)))
            is None),
{
    let has_inline = colors.is_some();
    let comp: Vec<MinerColors> = match colors {
        Some(cs) => cs,
        None => {
            match id {
                None => {
                    return Err(Error::MissingId);
                },
                Some(i) => {
                    match draft_find(&store.drafts, i) {
                        None => {
                            return Err(Error::NotFound);
                        },
                        Some(di) => clone_comp(&store.drafts[di].colors),
                    }
                },
            }
        },
    };
    let ghost cv = comp.deep_view();
    proof {
        assert(wf_comp(cv));
        assert(3 * coverage(writes_of(cv)) + 4 <= u32::MAX);
        lemma_coverage_nonneg(writes_of(cv));
    }
    let buf = encode(&comp, width);
    let hash = sha256(&buf);
    let ghost h = sha256_of(buf@);
    if let Some(_oi) = owner_find(&store.owners, &hash) {
        return Err(Error::NotEmpty);
    }
    // Commit: owner, minter (first-ever only), glyph record, draft removal.
    let ghost pre = store@;
    let recipient: u64 = match to {
        Some(a) => a,
        None => minter,
    };
    proof {
        lemma_glyph_lookup_iff(pre.glyphs, h);
        if glyph_lookup(pre.glyphs, h) is Some {
            let k = choose|k: int| 0 <= k < pre.glyphs.len() && (#[trigger] pre.glyphs[k]).hash
                == h;
            assert(owner_lookup(pre.owners, pre.glyphs[k].hash) is Some);
            assert(false);
        }
    }
    let ghost oe = OwnerEntryV { hash: h, owner: recipient, retention: MAX_RETENTION };
    store.owners.push(OwnerEntry { hash: clone_bytes(&hash), owner: recipient, retention: MAX_RETENTION });
    proof {
        assert(store@.owners =~~= pre.owners.push(oe));
        lemma_owner_push(pre.owners, oe);
    }
    match minter_find(&store.minters, &hash) {
        Some(_) => {
        },
        None => {
            let ghost me = MinterEntryV { hash: h, minter, retention: MAX_RETENTION };
            let ghost pre_m = store@.minters;
            store.minters.push(
                MinterEntry { hash: clone_bytes(&hash), minter, retention: MAX_RETENTION },
            );
            proof {
                assert(store@.minters =~~= pre_m.push(me));
                lemma_minter_push(pre_m, me);
            }
        },
    }
    let length: u32 = ((buf.len() - 4) / 3) as u32;
    let ghost ge = GlyphEntryV {
        hash: h,
        glyph: GlyphVal { width, length: coverage(writes_of(cv)) as u32, colors: cv },
        retention: MAX_RETENTION,
    };
    let ghost pre_g = store@.glyphs;
    store.glyphs.push(
        GlyphEntry {
            hash: clone_bytes(&hash),
            glyph: Glyph { width, length, colors: comp },
            retention: MAX_RETENTION,
        },
    );
    proof {
        assert(store@.glyphs =~~= pre_g.push(ge));
        lemma_glyph_push(pre_g, ge);
        lemma_glyphs_locked_push_all(pre_g, ge);
    }
    if let Some(i) = id {
        let ghost pre_d = store@.drafts;
        match draft_find(&store.drafts, i) {
            Some(di) => {
                proof {
                    lemma_draft_remove(pre_d, di as int);
                    lemma_draft_remove_unique(pre_d, di as int);
                    lemma_drafts_locked_remove_all(pre_d, di as int);
                }
                store.drafts.remove(di);
                proof {
                    assert(store@.drafts =~~= pre_d.remove(di as int));
                }
            },
            None => {
            },
        }
    }
    proof {
        lemma_store_wrapup(pre, store@, h, oe, ge);
    }
    Ok(hash)
}

/// Lift the per-key locked-glyph push lemma over all keys.
proof fn lemma_glyphs_locked_push_all(gs: Seq<GlyphEntryV>, e: GlyphEntryV)
    ensures
        forall|m: u64, c: u32|
            #[trigger] glyphs_locked(gs.push(e), m, c) == glyphs_locked(gs, m, c) + comp_count(
                e.glyph.colors,
                m,
                c,
            ),
{
    assert forall|m: u64, c: u32| true implies #[trigger] glyphs_locked(gs.push(e), m, c)
        == glyphs_locked(gs, m, c) + comp_count(e.glyph.colors, m, c) by {
        lemma_glyphs_locked_push(gs, e, m, c);
    }
}

/// Well-formedness carries across a store commit: the owner and glyph
/// records were pushed together under one fresh hash.
proof fn lemma_store_wrapup(
    pre: StoreV,
    post: StoreV,
    h: Seq<u8>,
    oe: OwnerEntryV,
    ge: GlyphEntryV,
)
    requires
        wf_store(pre),
        oe.hash == h,
        ge.hash == h,
        wf_comp(ge.glyph.colors),
        owner_lookup(pre.owners, h) is None,
        post.owners == pre.owners.push(oe),
        post.glyphs == pre.glyphs.push(ge),
        post.balances == pre.balances,
        post.offers == pre.offers,
        draft_unique(post.drafts),
        forall|i: int| 0 <= i < post.drafts.len() ==> wf_comp((#[trigger] post.drafts[i]).colors),
        minter_unique(post.minters),
    ensures
        wf_store(post),
{
    lemma_glyph_lookup_iff(pre.glyphs, h);
    if glyph_lookup(pre.glyphs, h) is Some {
        let k = choose|k: int| 0 <= k < pre.glyphs.len() && (#[trigger] pre.glyphs[k]).hash == h;
        assert(owner_lookup(pre.owners, pre.glyphs[k].hash) is Some);
    }
    assert(glyph_lookup(pre.glyphs, h) is None);
    lemma_owner_lookup_iff(pre.owners, h);
    assert forall|a: int, b: int| 0 <= a < b < post.owners.len() implies (#[trigger] post.owners[a]).hash
        != (#[trigger] post.owners[b]).hash by {
        if b == post.owners.len() - 1 {
            assert(post.owners[a] == pre.owners[a]);
        }
    }
    assert forall|a: int, b: int| 0 <= a < b < post.glyphs.len() implies (#[trigger] post.glyphs[a]).hash
        != (#[trigger] post.glyphs[b]).hash by {
        if b == post.glyphs.len() - 1 {
            assert(post.glyphs[a] == pre.glyphs[a]);
            lemma_glyph_lookup_iff(pre.glyphs, post.glyphs[b].hash);
        }
    }
    assert forall|i: int| 0 <= i < post.glyphs.len() implies wf_comp(
        (#[trigger] post.glyphs[i]).glyph.colors,
    ) by {
        if i < pre.glyphs.len() {
            assert(post.glyphs[i] == pre.glyphs[i]);
        }
    }
    assert forall|i: int| 0 <= i < post.owners.len() implies glyph_lookup(
        post.glyphs,
        (#[trigger] post.owners[i]).hash,
    ) is Some by {
        lemma_glyph_push_one(pre.glyphs, ge, post.owners[i].hash);
        if i < pre.owners.len() {
            assert(post.owners[i] == pre.owners[i]);
            assert(glyph_lookup(pre.glyphs, pre.owners[i].hash) is Some);
        }
    }
    assert forall|i: int| 0 <= i < post.glyphs.len() implies owner_lookup(
        post.owners,
        (#[trigger] post.glyphs[i]).hash,
    ) is Some by {
        lemma_owner_push_one(pre.owners, oe, post.glyphs[i].hash);
        if i < pre.glyphs.len() {
            assert(post.glyphs[i] == pre.glyphs[i]);
            assert(owner_lookup(pre.owners, pre.glyphs[i].hash) is Some);
        }
    }
}

/// Appending an owner entry resolves only its own hash, if it was free.
proof fn lemma_owner_push(xs: Seq<OwnerEntryV>, e: OwnerEntryV)
    requires
        owner_lookup(xs, e.hash) is None,
    ensures
        owner_lookup(xs.push(e), e.hash) == Some(e),
        forall|h2: Seq<u8>|
            h2 != e.hash ==> #[trigger] owner_lookup(xs.push(e), h2) == owner_lookup(xs, h2),
{
    lemma_owner_push_one(xs, e, e.hash);
    assert forall|h2: Seq<u8>| h2 != e.hash implies #[trigger] owner_lookup(xs.push(e), h2)
        == owner_lookup(xs, h2) by {
        lemma_owner_push_one(xs, e, h2);
    }
}

/// Appending a minter entry resolves only its own hash, if it was free.
proof fn lemma_minter_push(xs: Seq<MinterEntryV>, e: MinterEntryV)
    requires
        minter_lookup(xs, e.hash) is None,
    ensures
        minter_lookup(xs.push(e), e.hash) == Some(e),
        forall|h2: Seq<u8>|
            h2 != e.hash ==> #[trigger] minter_lookup(xs.push(e), h2) == minter_lookup(xs, h2),
{
    lemma_minter_push_one(xs, e, e.hash);
    assert forall|h2: Seq<u8>| h2 != e.hash implies #[trigger] minter_lookup(xs.push(e), h2)
        == minter_lookup(xs, h2) by {
        lemma_minter_push_one(xs, e, h2);
    }
}

/// Units a transfer or scrape displaces when it persists a composition
/// under a freshly derived id that an unrelated draft already occupies.
pub open spec fn displaced_at(drafts: Seq<DraftEntryV>, from_id: u64, nid: u64, m: u64, c: u32) -> int {
    if nid == from_id {
        0
    } else {
        match draft_lookup(drafts, nid) {
            Some(d) => comp_count(d.colors, m, c),
            None => 0,
        }
    }
}

/// Transfer a glyph or a draft.  A hash identifier re-binds the owner record
/// to `to` after verifying that `from` owns it.  A draft identifier moves
/// the composition to a fresh id derived from `to` and the timestamp — no
/// ownership check guards drafts: whoever supplies a valid draft id may
/// move it.
pub fn glyph_transfer(store: &mut Store, now: u64, from: u64, to: u64, hash_id: &HashId) -> (r:
    Result<Option<u64>, Error>)
    requires
        wf_store(old(store)@),
    ensures
        wf_store(final(store)@),
        r is Err ==> *final(store) == *old(store),
        final(store)@.balances == old(store)@.balances,
        final(store)@.glyphs == old(store)@.glyphs,
        final(store)@.minters == old(store)@.minters,
        final(store)@.offers == old(store)@.offers,
        match hash_id {
            HashId::Hash(hv) => {
                &&& final(store)@.drafts == old(store)@.drafts
                &&& (r == Err::<Option<u64>, Error>(Error::NotFound) <==> owner_lookup(
                    old(store)@.owners,
                    hv@,
                ) is None)
                &&& (owner_lookup(old(store)@.owners, hv@) matches Some(o) ==> {
                    &&& (r == Err::<Option<u64>, Error>(Error::NotAuthorized) <==> o.owner != from)
                    &&& (o.owner == from ==> {
                        &&& r == Ok::<Option<u64>, Error>(None)
                        &&& owner_lookup(final(store)@.owners, hv@) == Some(
                            OwnerEntryV { hash: hv@, owner: to, retention: MAX_RETENTION },
                        )
                        &&& forall|h2: Seq<u8>|
                            h2 != hv@ ==> #[trigger] owner_lookup(final(store)@.owners, h2)
                                == owner_lookup(old(store)@.owners, h2)
                    })
                })
                &&& forall|m: u64, c: u32|
                    #[trigger] holdings(final(store)@, m, c) == holdings(old(store)@, m, c)
            },
            HashId::Id(i) => {
                &&& final(store)@.owners == old(store)@.owners
                &&& (r == Err::<Option<u64>, Error>(Error::NotFound) <==> draft_lookup(
                    old(store)@.drafts,
                    *i,
                ) is None)
                &&& (draft_lookup(old(store)@.drafts, *i) matches Some(d) ==> {
                    let nid = derived_id(now, to);
                    &&& r == Ok::<Option<u64>, Error>(Some(nid))
                    &&& draft_lookup(final(store)@.drafts, nid) == Some(
                        DraftEntryV { id: nid, colors: d.colors, retention: MAX_RETENTION },
                    )
                    &&& (nid != *i ==> draft_lookup(final(store)@.drafts, *i) is None)
                    &&& forall|id2: u64|
                        id2 != nid && id2 != *i ==> #[trigger] draft_lookup(
                            final(store)@.drafts,
                            id2,
                        ) == draft_lookup(old(store)@.drafts, id2)
                    &&& forall|m: u64, c: u32|
                        #[trigger] holdings(final(store)@, m, c) == holdings(old(store)@, m, c)
                            - displaced_at(old(store)@.drafts, *i, nid, m, c)
                })
            },
        },
{
    match hash_id {
        HashId::Hash(hv) => {
            match glyph_verify_ownership(store, from, hv) {
                Err(e) => Err(e),
                Ok(_) => {
                    let oi = match owner_find(&store.owners, hv) {
                        Some(oi) => oi,
                        None => {
                            proof {
                                assert(false);
                            }
                            return Err(Error::NotFound);
                        },
                    };
                    let ghost pre = store@.owners;
                    let ghost ev = OwnerEntryV { hash: hv@, owner: to, retention: MAX_RETENTION };
                    proof {
                        lemma_owner_update_all(pre, oi as int, ev);
                        lemma_owner_update_unique(pre, oi as int, ev);
                    }
                    let entry = OwnerEntry {
                        hash: clone_bytes(hv),
                        owner: to,
                        retention: MAX_RETENTION,
                    };
                    let slot = &mut store.owners[oi];
                    *slot = entry;
                    proof {
                        assert(store@.owners =~~= pre.update(oi as int, ev));
                        assert forall|i: int| 0 <= i < store@.owners.len() implies glyph_lookup(
                            store@.glyphs,
                            (#[trigger] store@.owners[i]).hash,
                        ) is Some by {
                            assert(store@.owners[i].hash == pre[i].hash);
                        }
                        assert forall|m: u64, c: u32| true implies #[trigger] holdings(
                            store@,
                            m,
                            c,
                        ) == holdings(old(store)@, m, c) by {
                            assert(store@.balances == old(store)@.balances);
                            assert(store@.drafts == old(store)@.drafts);
                            assert(store@.glyphs == old(store)@.glyphs);
                        }
                    }
                    Ok(None)
                },
            }
        },
        HashId::Id(i) => {
            let di = match draft_find(&store.drafts, *i) {
                None => {
                    return Err(Error::NotFound);
                },
                Some(di) => di,
            };
            let ghost pre = store@.drafts;
            let ghost d = pre[di as int];
            proof {
                lemma_draft_remove(pre, di as int);
                lemma_draft_remove_unique(pre, di as int);
                lemma_drafts_locked_remove_all(pre, di as int);
            }
            let entry = store.drafts.remove(di);
            proof {
                assert(store@.drafts =~~= pre.remove(di as int));
            }
            let nid = derive_id(now, to);
            let ghost mid = store@.drafts;
            let ghost nv = DraftEntryV { id: nid, colors: d.colors, retention: MAX_RETENTION };
            let moved = DraftEntry { id: nid, colors: entry.colors, retention: MAX_RETENTION };
            proof {
                assert(moved.deep_view() == nv);
            }
            match draft_find(&store.drafts, nid) {
                Some(k) => {
                    proof {
                        lemma_draft_update(mid, k as int, nv);
                        lemma_draft_update_unique(mid, k as int, nv);
                        lemma_drafts_locked_update_all(mid, k as int, nv);
                        lemma_draft_remove_one(pre, di as int, nid);
                    }
                    let slot = &mut store.drafts[k];
                    *slot = moved;
                    proof {
                        assert(store@.drafts =~~= mid.update(k as int, nv));
                    }
                },
                None => {
                    proof {
                        lemma_draft_push(mid, nv);
                        lemma_draft_remove_one(pre, di as int, nid);
                    }
                    store.drafts.push(moved);
                    proof {
                        assert(store@.drafts =~~= mid.push(nv));
                        lemma_drafts_locked_push_all(mid, nv);
                        assert forall|a: int, b: int|
                            0 <= a < b < store@.drafts.len() implies (#[trigger] store@.drafts[a]).id
                            != (#[trigger] store@.drafts[b]).id by {
                            if b == store@.drafts.len() - 1 {
                                lemma_draft_lookup_iff(mid, nid);
                                assert(store@.drafts[a] == mid[a]);
                            }
                        }
                    }
                },
            }
            proof {
                assert forall|i2: int| 0 <= i2 < store@.drafts.len() implies wf_comp(
                    (#[trigger] store@.drafts[i2]).colors,
                ) by {
                    assert(wf_comp(d.colors));
                }
            }
            Ok(Some(nid))
        },
    }
}

/// What a lookup returns: the immutable glyph under a hash, or the raw
/// composition under a draft id.
pub enum GlyphType {
    Glyph(Glyph),
    Colors(Vec<MinerColors>),
}

/// Read a glyph record or a draft composition, refreshing its retention.
pub fn glyph_get(store: &mut Store, hash_id: &HashId) -> (r: Result<GlyphType, Error>)
    requires
        wf_store(old(store)@),
    ensures
        wf_store(final(store)@),
        r is Err ==> *final(store) == *old(store),
        final(store)@.balances == old(store)@.balances,
        final(store)@.owners == old(store)@.owners,
        final(store)@.minters == old(store)@.minters,
        final(store)@.offers == old(store)@.offers,
        forall|m: u64, c: u32|
            #[trigger] holdings(final(store)@, m, c) == holdings(old(store)@, m, c),
        match hash_id {
            HashId::Hash(hv) => {
                &&& final(store)@.drafts == old(store)@.drafts
                &&& (r == Err::<GlyphType, Error>(Error::NotFound) <==> glyph_lookup(
                    old(store)@.glyphs,
                    hv@,
                ) is None)
                &&& (glyph_lookup(old(store)@.glyphs, hv@) matches Some(g) ==> {
                    &&& (r matches Ok(GlyphType::Glyph(gl)) && gl.deep_view() == g.glyph)
                    &&& glyph_lookup(final(store)@.glyphs, hv@) == Some(
                        GlyphEntryV { hash: hv@, glyph: g.glyph, retention: MAX_RETENTION },
                    )
                    &&& forall|h2: Seq<u8>|
                        h2 != hv@ ==> #[trigger] glyph_lookup(final(store)@.glyphs, h2)
                            == glyph_lookup(old(store)@.glyphs, h2)
                })
            },
            HashId::Id(i) => {
                &&& final(store)@.glyphs == old(store)@.glyphs
                &&& (r == Err::<GlyphType, Error>(Error::NotFound) <==> draft_lookup(
                    old(store)@.drafts,
                    *i,
                ) is None)
                &&& (draft_lookup(old(store)@.drafts, *i) matches Some(d) ==> {
                    &&& (r matches Ok(GlyphType::Colors(cs)) && cs.deep_view() == d.colors)
                    &&& draft_lookup(final(store)@.drafts, *i) == Some(
                        DraftEntryV { id: *i, colors: d.colors, retention: MAX_RETENTION },
                    )
                    &&& forall|id2: u64|
                        id2 != *i ==> #[trigger] draft_lookup(final(store)@.drafts, id2)
                            == draft_lookup(old(store)@.drafts, id2)
                })
            },
        },
{
    match hash_id {
        HashId::Hash(hv) => {
            let gi = match glyph_find(&store.glyphs, hv) {
                None => {
                    return Err(Error::NotFound);
                },
                Some(gi) => gi,
            };
            let out = Glyph {
                width: store.glyphs[gi].glyph.width,
                length: store.glyphs[gi].glyph.length,
                colors: clone_comp(&store.glyphs[gi].glyph.colors),
            };
            let ghost pre = store@.glyphs;
            let ghost gv = GlyphEntryV {
                hash: hv@,
                glyph: pre[gi as int].glyph,
                retention: MAX_RETENTION,
            };
            proof {
                lemma_glyph_update(pre, gi as int, gv);
                lemma_glyph_update_unique(pre, gi as int, gv);
                lemma_glyphs_locked_update_all(pre, gi as int, gv);
            }
            let slot = &mut store.glyphs[gi];
            slot.retention = MAX_RETENTION;
            proof {
                assert(store@.glyphs =~~= pre.update(gi as int, gv));
                assert forall|i2: int| 0 <= i2 < store@.glyphs.len() implies wf_comp(
                    (#[trigger] store@.glyphs[i2]).glyph.colors,
                ) && owner_lookup(store@.owners, (#[trigger] store@.glyphs[i2]).hash) is Some by {
                    assert(store@.glyphs[i2].hash == pre[i2].hash);
                    assert(store@.glyphs[i2].glyph.colors == pre[i2].glyph.colors);
                }
                assert forall|i2: int| 0 <= i2 < store@.owners.len() implies glyph_lookup(
                    store@.glyphs,
                    (#[trigger] store@.owners[i2]).hash,
                ) is Some by {
                    lemma_glyph_update_one(pre, gi as int, gv, store@.owners[i2].hash);
                }
            }
            Ok(GlyphType::Glyph(out))
        },
        HashId::Id(i) => {
            let di = match draft_find(&store.drafts, *i) {
                None => {
                    return Err(Error::NotFound);
                },
                Some(di) => di,
            };
            let out = clone_comp(&store.drafts[di].colors);
            let ghost pre = store@.drafts;
            let ghost dv = DraftEntryV {
                id: *i,
                colors: pre[di as int].colors,
                retention: MAX_RETENTION,
            };
            proof {
                lemma_draft_update(pre, di as int, dv);
                lemma_draft_update_unique(pre, di as int, dv);
                lemma_drafts_locked_update_all(pre, di as int, dv);
            }
            let slot = &mut store.drafts[di];
            slot.retention = MAX_RETENTION;
            proof {
                assert(store@.drafts =~~= pre.update(di as int, dv));
                assert forall|i2: int| 0 <= i2 < store@.drafts.len() implies wf_comp(
                    (#[trigger] store@.drafts[i2]).colors,
                ) by {
                    assert(store@.drafts[i2].colors == pre[i2].colors);
                }
            }
            Ok(GlyphType::Colors(out))
        },
    }
}

/// The composition left after a bounded scrape batch: walk miners, then
/// colors, in composition order, removing each (miner, color) entry as it is
/// reclaimed, until the budget runs out; a miner whose colors are exhausted
/// is removed, and the rest is left untouched.
pub open spec fn drain_comp(comp: Seq<MinerColorsV>, budget: int) -> Seq<MinerColorsV>
    decreases comp.len(), (if comp.len() > 0 {
        comp[0].colors.len() + 1
    } else {
        0
    }),
{
    if comp.len() == 0 || budget <= 0 {
        comp
    } else if comp[0].colors.len() == 0 {
        drain_comp(comp.drop_first(), budget)
    } else {
        let rest0 = MinerColorsV { miner: comp[0].miner, colors: comp[0].colors.drop_first() };
        if rest0.colors.len() == 0 {
            drain_comp(comp.drop_first(), budget - 1)
        } else {
            drain_comp(seq![rest0] + comp.drop_first(), budget - 1)
        }
    }
}

/// The ledger rows after a bounded scrape batch: each reclaimed entry
/// credits (miner, recipient, color) by its index count.  `None` means some
/// credit would overflow.
pub open spec fn drain_rows(
    rows: Option<Seq<BalanceRow>>,
    recip: u64,
    comp: Seq<MinerColorsV>,
    budget: int,
) -> Option<Seq<BalanceRow>>
    decreases comp.len(), (if comp.len() > 0 {
        comp[0].colors.len() + 1
    } else {
        0
    }),
{
    match rows {
        None => None,
        Some(rs) => {
            if comp.len() == 0 || budget <= 0 {
                Some(rs)
            } else if comp[0].colors.len() == 0 {
                drain_rows(Some(rs), recip, comp.drop_first(), budget)
            } else {
                let ci = comp[0].colors[0];
                let cur = bal_amount(rs, comp[0].miner, recip, ci.color);
                if cur + ci.indexes.len() > u32::MAX {
                    None
                } else {
                    let rs1 = bal_upsert(
                        rs,
                        comp[0].miner,
                        recip,
                        ci.color,
                        (cur + ci.indexes.len()) as u32,
                    );
                    let rest0 = MinerColorsV {
                        miner: comp[0].miner,
                        colors: comp[0].colors.drop_first(),
                    };
                    if rest0.colors.len() == 0 {
                        drain_rows(Some(rs1), recip, comp.drop_first(), budget - 1)
                    } else {
                        drain_rows(Some(rs1), recip, seq![rest0] + comp.drop_first(), budget - 1)
                    }
                }
            }
        },
    }
}

/// A successful batch credits back exactly the counts it removed from the
/// composition, keeps row uniqueness, and leaves a well-formed remainder.
pub proof fn lemma_drain_effects(rs: Seq<BalanceRow>, recip: u64, comp: Seq<MinerColorsV>, budget: int)
    requires
        bal_unique(rs),
        wf_comp(comp),
        drain_rows(Some(rs), recip, comp, budget) is Some,
    ensures
        bal_unique(drain_rows(Some(rs), recip, comp, budget)->Some_0),
        wf_comp(drain_comp(comp, budget)),
        forall|m2: u64, c2: u32|
            #[trigger] bal_sum(drain_rows(Some(rs), recip, comp, budget)->Some_0, m2, c2)
                == bal_sum(rs, m2, c2) + comp_count(comp, m2, c2) - comp_count(
                drain_comp(comp, budget),
                m2,
                c2,
            ),
    decreases comp.len(), (if comp.len() > 0 {
        comp[0].colors.len() + 1
    } else {
        0
    }),
{
    if comp.len() == 0 || budget <= 0 {
    } else if comp[0].colors.len() == 0 {
        assert(wf_comp(comp.drop_first()));
        lemma_drain_effects(rs, recip, comp.drop_first(), budget);
        assert forall|m2: u64, c2: u32| true implies #[trigger] bal_sum(
            drain_rows(Some(rs), recip, comp, budget)->Some_0,
            m2,
            c2,
        ) == bal_sum(rs, m2, c2) + comp_count(comp, m2, c2) - comp_count(
            drain_comp(comp, budget),
            m2,
            c2,
        ) by {
            assert(comp_count(comp, m2, c2) == (if comp[0].miner == m2 {
                colors_count(comp[0].colors, c2)
            } else {
                0
            }) + comp_count(comp.drop_first(), m2, c2));
        }
    } else {
        let ci = comp[0].colors[0];
        let cur = bal_amount(rs, comp[0].miner, recip, ci.color);
        let rs1 = bal_upsert(rs, comp[0].miner, recip, ci.color, (cur + ci.indexes.len()) as u32);
        lemma_bal_upsert_unique(rs, comp[0].miner, recip, ci.color, (cur + ci.indexes.len()) as u32);
        lemma_bal_upsert_sum(rs, comp[0].miner, recip, ci.color, (cur + ci.indexes.len()) as u32);
        let rest0 = MinerColorsV { miner: comp[0].miner, colors: comp[0].colors.drop_first() };
        if rest0.colors.len() == 0 {
            assert(wf_comp(comp.drop_first()));
            lemma_drain_effects(rs1, recip, comp.drop_first(), budget - 1);
            assert forall|m2: u64, c2: u32| true implies #[trigger] bal_sum(
                drain_rows(Some(rs), recip, comp, budget)->Some_0,
                m2,
                c2,
            ) == bal_sum(rs, m2, c2) + comp_count(comp, m2, c2) - comp_count(
                drain_comp(comp, budget),
                m2,
                c2,
            ) by {
                assert(comp_count(comp, m2, c2) == (if comp[0].miner == m2 {
                    colors_count(comp[0].colors, c2)
                } else {
                    0
                }) + comp_count(comp.drop_first(), m2, c2));
                assert(colors_count(comp[0].colors, c2) == (if ci.color == c2 {
                    ci.indexes.len() as int
                } else {
                    0
                }) + colors_count(comp[0].colors.drop_first(), c2));
                assert(colors_count(comp[0].colors.drop_first(), c2) == 0);
            }
        } else {
            let comp1 = seq![rest0] + comp.drop_first();
            assert(wf_comp(comp1)) by {
                assert(comp1[0] == rest0);
                assert(forall|k: int| 1 <= k < comp1.len() ==> comp1[k] == #[trigger] comp[k]);
                assert(colors_unique(comp[0].colors));
                assert(forall|a: int, b: int|
                    0 <= a < b < comp[0].colors.len() ==> (#[trigger] comp[0].colors[a]).color != (
                    #[trigger] comp[0].colors[b]).color);
                assert(forall|a: int|
                    0 <= a < rest0.colors.len() ==> #[trigger] rest0.colors[a]
                        == comp[0].colors[a + 1]);
                assert(colors_unique(rest0.colors));
            }
            lemma_drain_effects(rs1, recip, comp1, budget - 1);
            assert forall|m2: u64, c2: u32| true implies #[trigger] bal_sum(
                drain_rows(Some(rs), recip, comp, budget)->Some_0,
                m2,
                c2,
            ) == bal_sum(rs, m2, c2) + comp_count(comp, m2, c2) - comp_count(
                drain_comp(comp, budget),
                m2,
                c2,
            ) by {
                assert(comp_count(comp, m2, c2) == (if comp[0].miner == m2 {
                    colors_count(comp[0].colors, c2)
                } else {
                    0
                }) + comp_count(comp.drop_first(), m2, c2));
                assert(colors_count(comp[0].colors, c2) == (if ci.color == c2 {
                    ci.indexes.len() as int
                } else {
                    0
                }) + colors_count(comp[0].colors.drop_first(), c2));
                assert(comp_count(comp1, m2, c2) == (if comp1[0].miner == m2 {
                    colors_count(comp1[0].colors, c2)
                } else {
                    0
                }) + comp_count(comp1.drop_first(), m2, c2));
                assert(comp1.drop_first() =~= comp.drop_first());
            }
        }
    }
}

/// Run one bounded scrape batch: credit up to [`MAX_PAYMENT_COUNT`]
/// (miner, color) entries back to the recipient, removing them from the
/// working composition, in order, and stop the moment the cap is reached.
fn drain_batch(rows: &mut Vec<BalanceRow>, recip: u64, comp: &mut Vec<MinerColors>)
    requires
        drain_rows(
            Some(old(rows)@),
            recip,
            old(comp).deep_view(),
            MAX_PAYMENT_COUNT as int,
        ) is Some,
    ensures
        Some(final(rows)@) == drain_rows(
            Some(old(rows)@),
            recip,
            old(comp).deep_view(),
            MAX_PAYMENT_COUNT as int,
        ),
        final(comp).deep_view() == drain_comp(old(comp).deep_view(), MAX_PAYMENT_COUNT as int),
{
    let ghost rows0 = old(rows)@;
    let ghost comp0 = old(comp).deep_view();
    let mut budget: usize = MAX_PAYMENT_COUNT;
    while comp.len() > 0 && budget > 0
        invariant
            budget <= MAX_PAYMENT_COUNT,
            drain_rows(Some(rows@), recip, comp.deep_view(), budget as int) == drain_rows(
                Some(rows0),
                recip,
                comp0,
                MAX_PAYMENT_COUNT as int,
            ),
            drain_comp(comp.deep_view(), budget as int) == drain_comp(
                comp0,
                MAX_PAYMENT_COUNT as int,
            ),
            drain_rows(Some(rows0), recip, comp0, MAX_PAYMENT_COUNT as int) is Some,
        decreases comp@.len(), (if comp@.len() > 0 {
            comp@[0].colors@.len() + 1
        } else {
            0
        }),
    {
        let ghost pre = comp.deep_view();
        let ghost prews = rows@;
        let mut mc = comp.remove(0);
        proof {
            assert(comp.deep_view() =~~= pre.drop_first());
            assert(mc.deep_view() == pre[0]);
        }
        if mc.colors.len() == 0 {
            // An entry with no colors is dropped for free.
        } else {
            let ci = mc.colors.remove(0);
            let ghost civ = pre[0].colors[0];
            proof {
                assert(mc.colors.deep_view() =~~= pre[0].colors.drop_first());
                assert(ci.deep_view() == civ);
            }
            let cur = bal_get(rows, mc.miner, recip, ci.color);
            proof {
                if cur + ci.indexes@.len() > u32::MAX {
                    assert(drain_rows(Some(prews), recip, pre, budget as int) is None);
                    assert(false);
                }
            }
            bal_set(rows, mc.miner, recip, ci.color, cur + (ci.indexes.len() as u32));
            budget -= 1;
            if mc.colors.len() > 0 {
                let ghost mcv = mc.deep_view();
                comp.insert(0, mc);
                proof {
                    assert(mcv == (MinerColorsV {
                        miner: pre[0].miner,
                        colors: pre[0].colors.drop_first(),
                    }));
                    assert(comp.deep_view() =~~= seq![mcv] + pre.drop_first());
                }
            }
        }
    }
    proof {
        if comp@.len() == 0 {
            assert(comp.deep_view() =~= Seq::<MinerColorsV>::empty());
            assert(drain_comp(comp.deep_view(), budget as int) == comp.deep_view());
        }
    }
}

/// Scrape: reverse a finalized glyph, or drain a draft, back into color
/// credits, in batches of at most [`MAX_PAYMENT_COUNT`] (miner, color)
/// entries per call.  A hash identifier requires ownership; its glyph,
/// owner and offer records are deleted, and any leftover composition is
/// persisted under a fresh id derived from the owner.  A draft identifier
/// drains in place, unchecked.  `None` reports completion; `Some(id)` names
/// the remainder to scrape next.
pub fn glyph_scrape(
    store: &mut Store,
    now: u64,
    owner: u64,
    to: Option<u64>,
    hash_id: &HashId,
) -> (r: Result<Option<u64>, Error>)
    requires
        wf_store(old(store)@),
        match hash_id {
            HashId::Hash(hv) => (glyph_lookup(old(store)@.glyphs, hv@) matches Some(g)
                ==> drain_rows(
                Some(old(store)@.balances),
                addr_or(to, owner),
                g.glyph.colors,
                MAX_PAYMENT_COUNT as int,
            ) is Some),
            HashId::Id(i) => (draft_lookup(old(store)@.drafts, *i) matches Some(d) ==> drain_rows(
                Some(old(store)@.balances),
                addr_or(to, owner),
                d.colors,
                MAX_PAYMENT_COUNT as int,
            ) is Some),
        },
    ensures
        wf_store(final(store)@),
        r is Err ==> *final(store) == *old(store),
        final(store)@.minters == old(store)@.minters,
        match hash_id {
            HashId::Hash(hv) => {
                &&& (r == Err::<Option<u64>, Error>(Error::NotFound) <==> owner_lookup(
                    old(store)@.owners,
                    hv@,
                ) is None)
                &&& (owner_lookup(old(store)@.owners, hv@) matches Some(o) ==> {
                    &&& (r == Err::<Option<u64>, Error>(Error::NotAuthorized) <==> o.owner
                        != owner)
                    &&& (o.owner == owner ==> glyph_lookup(old(store)@.glyphs, hv@) is Some)
                    &&& ((o.owner == owner && glyph_lookup(old(store)@.glyphs, hv@) is Some)
                        ==> {
                        let g = glyph_lookup(old(store)@.glyphs, hv@)->Some_0;
                        let comp0 = g.glyph.colors;
                        let rem = drain_comp(comp0, MAX_PAYMENT_COUNT as int);
                        let nid = derived_id(now, owner);
                        &&& Some(final(store)@.balances) == drain_rows(
                            Some(old(store)@.balances),
                            addr_or(to, owner),
                            comp0,
                            MAX_PAYMENT_COUNT as int,
                        )
                        &&& owner_lookup(final(store)@.owners, hv@) is None
                        &&& forall|h2: Seq<u8>|
                            h2 != hv@ ==> #[trigger] owner_lookup(final(store)@.owners, h2)
                                == owner_lookup(old(store)@.owners, h2)
                        &&& glyph_lookup(final(store)@.glyphs, hv@) is None
                        &&& forall|h2: Seq<u8>|
                            h2 != hv@ ==> #[trigger] glyph_lookup(final(store)@.glyphs, h2)
                                == glyph_lookup(old(store)@.glyphs, h2)
                        &&& offer_lookup(final(store)@.offers, hv@) is None
                        &&& forall|h2: Seq<u8>|
                            h2 != hv@ ==> #[trigger] offer_lookup(final(store)@.offers, h2)
                                == offer_lookup(old(store)@.offers, h2)
                        &&& (rem.len() == 0 ==> r == Ok::<Option<u64>, Error>(None)
                            && final(store)@.drafts == old(store)@.drafts)
                        &&& (rem.len() > 0 ==> {
                            &&& r == Ok::<Option<u64>, Error>(Some(nid))
                            &&& draft_lookup(final(store)@.drafts, nid) == Some(
                                DraftEntryV { id: nid, colors: rem, retention: MAX_RETENTION },
                            )
                            &&& forall|id2: u64|
                                id2 != nid ==> #[trigger] draft_lookup(final(store)@.drafts, id2)
                                    == draft_lookup(old(store)@.drafts, id2)
                        })
                        &&& forall|m: u64, c: u32|
                            #[trigger] holdings(final(store)@, m, c) == holdings(old(store)@, m, c)
                                - (if rem.len() > 0 {
                                match draft_lookup(old(store)@.drafts, nid) {
                                    Some(d) => comp_count(d.colors, m, c),
                                    None => 0,
                                }
                            } else {
                                0
                            })
                    })
                })
            },
            HashId::Id(i) => {
                &&& final(store)@.owners == old(store)@.owners
                &&& final(store)@.glyphs == old(store)@.glyphs
                &&& final(store)@.offers == old(store)@.offers
                &&& (r == Err::<Option<u64>, Error>(Error::NotFound) <==> draft_lookup(
                    old(store)@.drafts,
                    *i,
                ) is None)
                &&& (draft_lookup(old(store)@.drafts, *i) matches Some(d) ==> {
                    let comp0 = d.colors;
                    let rem = drain_comp(comp0, MAX_PAYMENT_COUNT as int);
                    &&& Some(final(store)@.balances) == drain_rows(
                        Some(old(store)@.balances),
                        addr_or(to, owner),
                        comp0,
                        MAX_PAYMENT_COUNT as int,
                    )
                    &&& (rem.len() == 0 ==> r == Ok::<Option<u64>, Error>(None) && draft_lookup(
                        final(store)@.drafts,
                        *i,
                    ) is None)
                    &&& (rem.len() > 0 ==> r == Ok::<Option<u64>, Error>(Some(*i)) && draft_lookup(
                        final(store)@.drafts,
                        *i,
                    ) == Some(DraftEntryV { id: *i, colors: rem, retention: MAX_RETENTION }))
                    &&& forall|id2: u64|
                        id2 != *i ==> #[trigger] draft_lookup(final(store)@.drafts, id2)
                            == draft_lookup(old(store)@.drafts, id2)
                    &&& forall|m: u64, c: u32|
                        #[trigger] holdings(final(store)@, m, c) == holdings(old(store)@, m, c)
                })
            },
        },
{
    let recip: u64 = match to {
        Some(a) => a,
        None => owner,
    };
    match hash_id {
        HashId::Hash(hv) => {
            match glyph_verify_ownership(store, owner, hv) {
                Err(e) => {
                    return Err(e);
                },
                Ok(_) => {
                },
            }
            let ghost sv = store@;
            // The owner record is live, so by well-formedness the glyph is.
            let gi = match glyph_find(&store.glyphs, hv) {
                Some(gi) => gi,
                None => {
                    proof {
                        lemma_owner_lookup_iff(store@.owners, hv@);
                        let k = choose|k: int|
                            0 <= k < store@.owners.len() && (#[trigger] store@.owners[k]).hash
                                == hv@;
                        assert(glyph_lookup(store@.glyphs, store@.owners[k].hash) is Some);
                        assert(false);
                    }
                    return Err(Error::NotFound);
                },
            };
            let ghost pre_g = store@.glyphs;
            proof {
                lemma_glyph_remove(pre_g, gi as int);
                lemma_glyph_remove_unique(pre_g, gi as int);
                lemma_glyphs_locked_remove_all(pre_g, gi as int);
            }
            let entry = store.glyphs.remove(gi);
            let mut comp = entry.glyph.colors;
            proof {
                assert(store@.glyphs =~~= pre_g.remove(gi as int));
            }
            let oi = match owner_find(&store.owners, hv) {
                Some(oi) => oi,
                None => {
                    proof {
                        assert(false);
                    }
                    return Err(Error::NotFound);
                },
            };
            let ghost pre_o = store@.owners;
            proof {
                lemma_owner_remove(pre_o, oi as int);
                lemma_owner_remove_unique(pre_o, oi as int);
            }
            store.owners.remove(oi);
            proof {
                assert(store@.owners =~~= pre_o.remove(oi as int));
            }
            match offer_find(&store.offers, hv) {
                Some(fi) => {
                    let ghost pre_f = store@.offers;
                    proof {
                        lemma_offer_remove(pre_f, fi as int);
                        lemma_offer_remove_unique(pre_f, fi as int);
                    }
                    store.offers.remove(fi);
                    proof {
                        assert(store@.offers =~~= pre_f.remove(fi as int));
                    }
                },
                None => {
                },
            }
            let ghost comp0 = comp.deep_view();
            proof {
                assert(comp0 == pre_g[gi as int].glyph.colors);
                assert(pre_g == old(store)@.glyphs);
                assert(glyph_lookup(old(store)@.glyphs, hv@) == Some(pre_g[gi as int]));
                assert(wf_comp(comp0));
                assert(store@.balances == old(store)@.balances);
            }
            drain_batch(&mut store.balances, recip, &mut comp);
            let ghost rem = drain_comp(comp0, MAX_PAYMENT_COUNT as int);
            proof {
                lemma_drain_effects(
                    old(store)@.balances,
                    recip,
                    comp0,
                    MAX_PAYMENT_COUNT as int,
                );
                lemma_scrape_hash_wf(sv, store@, gi as int, oi as int);
            }
            if comp.len() == 0 {
                proof {
                    assert(rem.len() == 0);
                    assert forall|m: u64, c: u32| true implies #[trigger] holdings(store@, m, c)
                        == holdings(old(store)@, m, c) by {
                        assert(bal_sum(store@.balances, m, c) == bal_sum(
                            old(store)@.balances,
                            m,
                            c,
                        ) + comp_count(comp0, m, c) - comp_count(rem, m, c));
                        assert(comp_count(rem, m, c) == 0);
                        assert(glyphs_locked(store@.glyphs, m, c) == glyphs_locked(
                            old(store)@.glyphs,
                            m,
                            c,
                        ) - comp_count(comp0, m, c));
                        assert(drafts_locked(store@.drafts, m, c) == drafts_locked(
                            old(store)@.drafts,
                            m,
                            c,
                        ));
                    }
                }
                Ok(None)
            } else {
                let nid = derive_id(now, owner);
                let ghost pre_d = store@.drafts;
                let ghost nv = DraftEntryV { id: nid, colors: rem, retention: MAX_RETENTION };
                let moved = DraftEntry { id: nid, colors: comp, retention: MAX_RETENTION };
                proof {
                    assert(moved.deep_view() == nv);
                }
                match draft_find(&store.drafts, nid) {
                    Some(k) => {
                        proof {
                            lemma_draft_update(pre_d, k as int, nv);
                            lemma_draft_update_unique(pre_d, k as int, nv);
                            lemma_drafts_locked_update_all(pre_d, k as int, nv);
                        }
                        let slot = &mut store.drafts[k];
                        *slot = moved;
                        proof {
                            assert(store@.drafts =~~= pre_d.update(k as int, nv));
                        }
                    },
                    None => {
                        proof {
                            lemma_draft_push(pre_d, nv);
                            lemma_drafts_locked_push_all(pre_d, nv);
                        }
                        store.drafts.push(moved);
                        proof {
                            assert(store@.drafts =~~= pre_d.push(nv));
                            assert forall|a: int, b: int|
                                0 <= a < b < store@.drafts.len() implies (#[trigger] store@.drafts[a]).id
                                != (#[trigger] store@.drafts[b]).id by {
                                if b == store@.drafts.len() - 1 {
                                    lemma_draft_lookup_iff(pre_d, nid);
                                    assert(store@.drafts[a] == pre_d[a]);
                                }
                            }
                        }
                    },
                }
                proof {
                    assert forall|i2: int| 0 <= i2 < store@.drafts.len() implies wf_comp(
                        (#[trigger] store@.drafts[i2]).colors,
                    ) by {
                        assert(wf_comp(rem));
                    }
                    assert forall|m: u64, c: u32| true implies #[trigger] holdings(store@, m, c)
                        == holdings(old(store)@, m, c) - (match draft_lookup(
                        old(store)@.drafts,
                        nid,
                    ) {
                        Some(d) => comp_count(d.colors, m, c),
                        None => 0,
                    }) by {
                        assert(bal_sum(store@.balances, m, c) == bal_sum(
                            old(store)@.balances,
                            m,
                            c,
                        ) + comp_count(comp0, m, c) - comp_count(rem, m, c));
                        assert(glyphs_locked(store@.glyphs, m, c) == glyphs_locked(
                            old(store)@.glyphs,
                            m,
                            c,
                        ) - comp_count(comp0, m, c));
                    }
                }
                Ok(Some(nid))
            }
        },
        HashId::Id(i) => {
            let di = match draft_find(&store.drafts, *i) {
                None => {
                    return Err(Error::NotFound);
                },
                Some(di) => di,
            };
            let mut comp = clone_comp(&store.drafts[di].colors);
            let ghost comp0 = comp.deep_view();
            proof {
                assert(comp0 == old(store)@.drafts[di as int].colors);
                assert(wf_comp(comp0));
            }
            drain_batch(&mut store.balances, recip, &mut comp);
            let ghost rem = drain_comp(comp0, MAX_PAYMENT_COUNT as int);
            proof {
                lemma_drain_effects(
                    old(store)@.balances,
                    recip,
                    comp0,
                    MAX_PAYMENT_COUNT as int,
                );
            }
            let ghost pre_d = store@.drafts;
            if comp.len() == 0 {
                proof {
                    lemma_draft_remove(pre_d, di as int);
                    lemma_draft_remove_unique(pre_d, di as int);
                    lemma_drafts_locked_remove_all(pre_d, di as int);
                }
                store.drafts.remove(di);
                proof {
                    assert(store@.drafts =~~= pre_d.remove(di as int));
                    assert(rem.len() == 0);
                    assert forall|m: u64, c: u32| true implies #[trigger] holdings(store@, m, c)
                        == holdings(old(store)@, m, c) by {
                        assert(bal_sum(store@.balances, m, c) == bal_sum(
                            old(store)@.balances,
                            m,
                            c,
                        ) + comp_count(comp0, m, c) - comp_count(rem, m, c));
                        assert(comp_count(rem, m, c) == 0);
                        assert(drafts_locked(store@.drafts, m, c) == drafts_locked(
                            old(store)@.drafts,
                            m,
                            c,
                        ) - comp_count(comp0, m, c));
                        assert(glyphs_locked(store@.glyphs, m, c) == glyphs_locked(
                            old(store)@.glyphs,
                            m,
                            c,
                        ));
                    }
                }
                Ok(None)
            } else {
                let ghost nv = DraftEntryV { id: *i, colors: rem, retention: MAX_RETENTION };
                let moved = DraftEntry { id: *i, colors: comp, retention: MAX_RETENTION };
                proof {
                    assert(moved.deep_view() == nv);
                    lemma_draft_update(pre_d, di as int, nv);
                    lemma_draft_update_unique(pre_d, di as int, nv);
                    lemma_drafts_locked_update_all(pre_d, di as int, nv);
                }
                let slot = &mut store.drafts[di];
                *slot = moved;
                proof {
                    assert(store@.drafts =~~= pre_d.update(di as int, nv));
                    assert forall|i2: int| 0 <= i2 < store@.drafts.len() implies wf_comp(
                        (#[trigger] store@.drafts[i2]).colors,
                    ) by {
                        assert(wf_comp(rem));
                    }
                    assert forall|m: u64, c: u32| true implies #[trigger] holdings(store@, m, c)
                        == holdings(old(store)@, m, c) by {
                        assert(bal_sum(store@.balances, m, c) == bal_sum(
                            old(store)@.balances,
                            m,
                            c,
                        ) + comp_count(comp0, m, c) - comp_count(rem, m, c));
                        assert(drafts_locked(store@.drafts, m, c) == drafts_locked(
                            old(store)@.drafts,
                            m,
                            c,
                        ) - comp_count(comp0, m, c) + comp_count(rem, m, c));
                        assert(glyphs_locked(store@.glyphs, m, c) == glyphs_locked(
                            old(store)@.glyphs,
                            m,
                            c,
                        ));
                    }
                }
                Ok(Some(*i))
            }
        },
    }
}

/// Mint: the craft-and-store dispatcher.  Inline colors with a width craft
/// and finalize in one call; inline colors without a width start or continue
/// a persisted draft and return its id; no colors finalizes an existing
/// draft, which then needs both its id and a width.
pub fn glyph_mint(
    store: &mut Store,
    now: u64,
    minter: u64,
    to: Option<u64>,
    colors: Option<Vec<MinerColors>>,
    width: Option<u32>,
    id: Option<u64>,
) -> (r: Result<HashId, Error>)
    requires
        wf_store(old(store)@),
        colors matches Some(cs) ==> wf_comp(cs.deep_view()),
        colors matches Some(cs) ==> (width is Some ==> (craft_base(
            old(store)@.drafts,
            id,
        ) matches Some(base) ==> 3 * coverage(
            writes_of(comp_merge(base, cs.deep_view())),
        ) + 4 <= u32::MAX)),
        colors is None ==> (id matches Some(i) ==> (width is Some ==> (draft_lookup(
            old(store)@.drafts,
            i,
        ) matches Some(d) ==> 3 * coverage(writes_of(d.colors)) + 4 <= u32::MAX))),
    ensures
        wf_store(final(store)@),
        r is Err ==> *final(store) == *old(store),
        final(store)@.offers == old(store)@.offers,
        r == Err::<HashId, Error>(Error::MissingId) <==> (colors is None && id is None),
        r == Err::<HashId, Error>(Error::MissingWidth) <==> (colors is None && id is Some
            && width is None),
        // Craft: inline colors, no width.
        colors matches Some(cs) ==> (width is None ==> {
            &&& (r == Err::<HashId, Error>(Error::NotFound) <==> craft_base(
                old(store)@.drafts,
                id,
            ) is None)
            &&& (craft_base(old(store)@.drafts, id) matches Some(base) ==> {
                let merged = comp_merge(base, cs.deep_view());
                let rid = craft_id(now, minter, id);
                &&& (r == Err::<HashId, Error>(Error::InsufficientColor) <==> debit_comp(
                    Some(old(store)@.balances),
                    minter,
                    cs.deep_view(),
                ) is None)
                &&& (debit_comp(Some(old(store)@.balances), minter, cs.deep_view()) is Some
                    ==> r is Ok)
                &&& (r is Ok ==> {
                    &&& r == Ok::<HashId, Error>(HashId::Id(rid))
                    &&& Some(final(store)@.balances) == debit_comp(
                        Some(old(store)@.balances),
                        minter,
                        cs.deep_view(),
                    )
                    &&& draft_lookup(final(store)@.drafts, rid) == Some(
                        DraftEntryV { id: rid, colors: merged, retention: MAX_RETENTION },
                    )
                    &&& forall|id2: u64|
                        id2 != rid ==> #[trigger] draft_lookup(final(store)@.drafts, id2)
                            == draft_lookup(old(store)@.drafts, id2)
                    &&& final(store)@.glyphs == old(store)@.glyphs
                    &&& final(store)@.owners == old(store)@.owners
                    &&& final(store)@.minters == old(store)@.minters
                    &&& forall|m: u64, c: u32|
                        #[trigger] holdings(final(store)@, m, c) == holdings(old(store)@, m, c)
                            - displaced_count(old(store)@.drafts, id, rid, m, c)
                })
            })
        }),
        // Quick mint: inline colors and a width, in one call.
        colors matches Some(cs) ==> (width matches Some(w) ==> {
            &&& (r == Err::<HashId, Error>(Error::NotFound) <==> craft_base(
                old(store)@.drafts,
                id,
            ) is None)
            &&& (craft_base(old(store)@.drafts, id) matches Some(base) ==> {
                let merged = comp_merge(base, cs.deep_view());
                let h = sha256_of(encoded(merged, w));
                &&& (r == Err::<HashId, Error>(Error::InsufficientColor) <==> debit_comp(
                    Some(old(store)@.balances),
                    minter,
                    cs.deep_view(),
                ) is None)
                &&& (debit_comp(Some(old(store)@.balances), minter, cs.deep_view()) is Some ==> (r
                    == Err::<HashId, Error>(Error::NotEmpty) <==> owner_lookup(
                    old(store)@.owners,
                    h,
                ) is Some))
                &&& (debit_comp(Some(old(store)@.balances), minter, cs.deep_view()) is Some
                    && owner_lookup(old(store)@.owners, h) is None ==> r is Ok)
                &&& (r is Ok ==> {
                    &&& (r matches Ok(HashId::Hash(hash)) && hash@ == h)
                    &&& Some(final(store)@.balances) == debit_comp(
                        Some(old(store)@.balances),
                        minter,
                        cs.deep_view(),
                    )
                    &&& owner_lookup(final(store)@.owners, h) == Some(
                        OwnerEntryV {
                            hash: h,
                            owner: addr_or(to, minter),
                            retention: MAX_RETENTION,
                        },
                    )
                    &&& forall|h2: Seq<u8>|
                        h2 != h ==> #[trigger] owner_lookup(final(store)@.owners, h2)
                            == owner_lookup(old(store)@.owners, h2)
                    &&& glyph_lookup(final(store)@.glyphs, h) == Some(
                        GlyphEntryV {
                            hash: h,
                            glyph: GlyphVal {
                                width: w,
                                length: coverage(writes_of(merged)) as u32,
                                colors: merged,
                            },
                            retention: MAX_RETENTION,
                        },
                    )
                    &&& forall|h2: Seq<u8>|
                        h2 != h ==> #[trigger] glyph_lookup(final(store)@.glyphs, h2)
                            == glyph_lookup(old(store)@.glyphs, h2)
                    &&& minter_lookup(final(store)@.minters, h) == (
                    match minter_lookup(old(store)@.minters, h) {
                        Some(m0) => Some(m0),
                        None => Some(MinterEntryV { hash: h, minter, retention: MAX_RETENTION }),
                    })
                    &&& forall|h2: Seq<u8>|
                        h2 != h ==> #[trigger] minter_lookup(final(store)@.minters, h2)
                            == minter_lookup(old(store)@.minters, h2)
                    &&& (match id {
                        Some(i) => draft_lookup(final(store)@.drafts, i) matches Some(d)
                            && draft_lookup(old(store)@.drafts, i) matches Some(d0) && d
                            == (DraftEntryV {
                            id: d0.id,
                            colors: d0.colors,
                            retention: MAX_RETENTION,
                        }) && (forall|id2: u64|
                            id2 != i ==> #[trigger] draft_lookup(final(store)@.drafts, id2)
                                == draft_lookup(old(store)@.drafts, id2)),
                        None => final(store)@.drafts == old(store)@.drafts,
                    })
                    &&& forall|m: u64, c: u32|
                        #[trigger] holdings(final(store)@, m, c) == holdings(old(store)@, m, c)
                            + comp_count(base, m, c)
                })
            })
        }),
        // Store: no inline colors; finalize the referenced draft.
        colors is None ==> (id matches Some(i) ==> (width matches Some(w) ==> {
            &&& (r == Err::<HashId, Error>(Error::NotFound) <==> draft_lookup(
                old(store)@.drafts,
                i,
            ) is None)
            &&& (draft_lookup(old(store)@.drafts, i) matches Some(d) ==> {
                let h = sha256_of(encoded(d.colors, w));
                &&& (r == Err::<HashId, Error>(Error::NotEmpty) <==> owner_lookup(
                    old(store)@.owners,
                    h,
                ) is Some)
                &&& (owner_lookup(old(store)@.owners, h) is None ==> r is Ok)
                &&& (r is Ok ==> {
                    &&& (r matches Ok(HashId::Hash(hash)) && hash@ == h)
                    &&& final(store)@.balances == old(store)@.balances
                    &&& owner_lookup(final(store)@.owners, h) == Some(
                        OwnerEntryV {
                            hash: h,
                            owner: addr_or(to, minter),
                            retention: MAX_RETENTION,
                        },
                    )
                    &&& glyph_lookup(final(store)@.glyphs, h) == Some(
                        GlyphEntryV {
                            hash: h,
                            glyph: GlyphVal {
                                width: w,
                                length: coverage(writes_of(d.colors)) as u32,
                                colors: d.colors,
                            },
                            retention: MAX_RETENTION,
                        },
                    )
                    &&& minter_lookup(final(store)@.minters, h) == (
                    match minter_lookup(old(store)@.minters, h) {
                        Some(m0) => Some(m0),
                        None => Some(MinterEntryV { hash: h, minter, retention: MAX_RETENTION }),
                    })
                    &&& draft_lookup(final(store)@.drafts, i) is None
                    &&& forall|id2: u64|
                        id2 != i ==> #[trigger] draft_lookup(final(store)@.drafts, id2)
                            == draft_lookup(old(store)@.drafts, id2)
                    &&& forall|m: u64, c: u32|
                        #[trigger] holdings(final(store)@, m, c) == holdings(old(store)@, m, c)
                })
            })
        })),
{
    match colors {
        Some(cs) => {
            match width {
                Some(w) => {
                    // Quick mint: craft transiently, then finalize at once.
                    let ghost incv = cs.deep_view();
                    let (mut work, di): (Vec<MinerColors>, Option<usize>) = match id {
                        None => (Vec::new(), None),
                        Some(i) => {
                            match draft_find(&store.drafts, i) {
                                None => {
                                    return Err(Error::NotFound);
                                },
                                Some(di) => (clone_comp(&store.drafts[di].colors), Some(di)),
                            }
                        },
                    };
                    let ghost base = work.deep_view();
                    proof {
                        match id {
                            Some(i) => {
                                assert(craft_base(old(store)@.drafts, id) == Some(base));
                            },
                            None => {
                                assert(base =~= Seq::<MinerColorsV>::empty());
                                assert(craft_base(old(store)@.drafts, id) == Some(base));
                            },
                        }
                    }
                    let mut scratch = bal_copy(&store.balances);
                    if !apply_debits(&mut scratch, minter, &cs) {
                        return Err(Error::InsufficientColor);
                    }
                    proof {
                        lemma_debit_comp_effects(old(store)@.balances, minter, incv);
                    }
                    comp_merge_into(&mut work, &cs);
                    proof {
                        lemma_comp_merge_wf(base, incv);
                        lemma_comp_merge_count(base, incv);
                        lemma_coverage_nonneg(writes_of(work.deep_view()));
                    }
                    let buf = encode(&work, w);
                    let hash = sha256(&buf);
                    let ghost h = sha256_of(buf@);
                    if let Some(_oi) = owner_find(&store.owners, &hash) {
                        return Err(Error::NotEmpty);
                    }
                    // Commit.
                    store.balances = scratch;
                    let ghost pre = store@;
                    let recipient: u64 = match to {
                        Some(a) => a,
                        None => minter,
                    };
                    proof {
                        lemma_glyph_lookup_iff(pre.glyphs, h);
                        if glyph_lookup(pre.glyphs, h) is Some {
                            let k = choose|k: int|
                                0 <= k < pre.glyphs.len() && (#[trigger] pre.glyphs[k]).hash == h;
                            assert(owner_lookup(pre.owners, pre.glyphs[k].hash) is Some);
                            assert(false);
                        }
                    }
                    let ghost oe = OwnerEntryV {
                        hash: h,
                        owner: recipient,
                        retention: MAX_RETENTION,
                    };
                    store.owners.push(
                        OwnerEntry {
                            hash: clone_bytes(&hash),
                            owner: recipient,
                            retention: MAX_RETENTION,
                        },
                    );
                    proof {
                        assert(store@.owners =~~= pre.owners.push(oe));
                        lemma_owner_push(pre.owners, oe);
                    }
                    match minter_find(&store.minters, &hash) {
                        Some(_) => {
                        },
                        None => {
                            let ghost me = MinterEntryV { hash: h, minter, retention: MAX_RETENTION };
                            let ghost pre_m = store@.minters;
                            store.minters.push(
                                MinterEntry {
                                    hash: clone_bytes(&hash),
                                    minter,
                                    retention: MAX_RETENTION,
                                },
                            );
                            proof {
                                assert(store@.minters =~~= pre_m.push(me));
                                lemma_minter_push(pre_m, me);
                            }
                        },
                    }
                    let length: u32 = ((buf.len() - 4) / 3) as u32;
                    let ghost ge = GlyphEntryV {
                        hash: h,
                        glyph: GlyphVal {
                            width: w,
                            length: coverage(writes_of(work.deep_view())) as u32,
                            colors: work.deep_view(),
                        },
                        retention: MAX_RETENTION,
                    };
                    let ghost pre_g = store@.glyphs;
                    store.glyphs.push(
                        GlyphEntry {
                            hash: clone_bytes(&hash),
                            glyph: Glyph { width: w, length, colors: work },
                            retention: MAX_RETENTION,
                        },
                    );
                    proof {
                        assert(store@.glyphs =~~= pre_g.push(ge));
                        lemma_glyph_push(pre_g, ge);
                        lemma_glyphs_locked_push_all(pre_g, ge);
                    }
                    if let Some(di2) = di {
                        let ghost pre_d = store@.drafts;
                        let ghost d0 = pre_d[di2 as int];
                        let ghost dv = DraftEntryV {
                            id: d0.id,
                            colors: d0.colors,
                            retention: MAX_RETENTION,
                        };
                        proof {
                            lemma_draft_update(pre_d, di2 as int, dv);
                            lemma_draft_update_unique(pre_d, di2 as int, dv);
                            lemma_drafts_locked_update_all(pre_d, di2 as int, dv);
                        }
                        let slot = &mut store.drafts[di2];
                        slot.retention = MAX_RETENTION;
                        proof {
                            assert(store@.drafts =~~= pre_d.update(di2 as int, dv));
                            assert forall|i2: int| 0 <= i2 < store@.drafts.len() implies wf_comp(
                                (#[trigger] store@.drafts[i2]).colors,
                            ) by {
                                assert(store@.drafts[i2].colors == pre_d[i2].colors);
                            }
                        }
                    }
                    proof {
                        lemma_store_wrapup(pre, store@, h, oe, ge);
                    }
                    Ok(HashId::Hash(hash))
                },
                None => {
                    match glyph_craft(store, now, minter, &cs, id, true) {
                        Err(e) => Err(e),
                        Ok(CraftResult::Id(rid)) => Ok(HashId::Id(rid)),
                        Ok(CraftResult::Colors(_)) => {
                            proof {
                                assert(false);
                            }
                            Err(Error::InternalInvariant)
                        },
                    }
                },
            }
        },
        None => {
            match id {
                None => Err(Error::MissingId),
                Some(i) => {
                    match width {
                        None => Err(Error::MissingWidth),
                        Some(w) => {
                            match glyph_store(store, minter, to, None, w, Some(i)) {
                                Err(e) => Err(e),
                                Ok(hash) => Ok(HashId::Hash(hash)),
                            }
                        },
                    }
                },
            }
        },
    }
}

/// Removing an owner entry resolves only its own hash.
proof fn lemma_owner_remove(xs: Seq<OwnerEntryV>, i: int)
    requires
        0 <= i < xs.len(),
        owner_unique(xs),
    ensures
        owner_lookup(xs.remove(i), xs[i].hash) is None,
        forall|h2: Seq<u8>|
            h2 != xs[i].hash ==> #[trigger] owner_lookup(xs.remove(i), h2) == owner_lookup(
                xs,
                h2,
            ),
{
    lemma_owner_remove_one(xs, i, xs[i].hash);
    assert forall|h2: Seq<u8>| h2 != xs[i].hash implies #[trigger] owner_lookup(xs.remove(i), h2)
        == owner_lookup(xs, h2) by {
        lemma_owner_remove_one(xs, i, h2);
    }
}

/// Removing an offer entry resolves only its own hash.
proof fn lemma_offer_remove(xs: Seq<OfferEntryV>, i: int)
    requires
        0 <= i < xs.len(),
        offer_unique(xs),
    ensures
        offer_lookup(xs.remove(i), xs[i].hash) is None,
        forall|h2: Seq<u8>|
            h2 != xs[i].hash ==> #[trigger] offer_lookup(xs.remove(i), h2) == offer_lookup(
                xs,
                h2,
            ),
{
    lemma_offer_remove_one(xs, i, xs[i].hash);
    assert forall|h2: Seq<u8>| h2 != xs[i].hash implies #[trigger] offer_lookup(xs.remove(i), h2)
        == offer_lookup(xs, h2) by {
        lemma_offer_remove_one(xs, i, h2);
    }
}

/// Deleting a glyph together with its owner record keeps the store well
/// formed: every remaining owner still has its glyph, and vice versa.
proof fn lemma_scrape_hash_wf(pre: StoreV, post: StoreV, gi: int, oi: int)
    requires
        wf_store(pre),
        0 <= gi < pre.glyphs.len(),
        0 <= oi < pre.owners.len(),
        pre.owners[oi].hash == pre.glyphs[gi].hash,
        post.glyphs == pre.glyphs.remove(gi),
        post.owners == pre.owners.remove(oi),
        bal_unique(post.balances),
        draft_unique(post.drafts),
        forall|i: int| 0 <= i < post.drafts.len() ==> wf_comp((#[trigger] post.drafts[i]).colors),
        offer_unique(post.offers),
        minter_unique(post.minters),
    ensures
        wf_store(post),
{
    lemma_glyph_remove_unique(pre.glyphs, gi);
    lemma_owner_remove_unique(pre.owners, oi);
    let h = pre.glyphs[gi].hash;
    assert forall|i: int| 0 <= i < post.glyphs.len() implies wf_comp(
        (#[trigger] post.glyphs[i]).glyph.colors,
    ) by {
        assert(post.glyphs[i] == (if i < gi {
            pre.glyphs[i]
        } else {
            pre.glyphs[i + 1]
        }));
    }
    assert forall|i: int| 0 <= i < post.owners.len() implies glyph_lookup(
        post.glyphs,
        (#[trigger] post.owners[i]).hash,
    ) is Some by {
        assert(post.owners[i] == (if i < oi {
            pre.owners[i]
        } else {
            pre.owners[i + 1]
        }));
        assert(post.owners[i].hash != h);
        lemma_glyph_remove_one(pre.glyphs, gi, post.owners[i].hash);
    }
    assert forall|i: int| 0 <= i < post.glyphs.len() implies owner_lookup(
        post.owners,
        (#[trigger] post.glyphs[i]).hash,
    ) is Some by {
        assert(post.glyphs[i] == (if i < gi {
            pre.glyphs[i]
        } else {
            pre.glyphs[i + 1]
        }));
        assert(post.glyphs[i].hash != h) by {
            if post.glyphs[i].hash == h {
                assert(glyph_unique(pre.glyphs));
            }
        }
        lemma_owner_remove_one(pre.owners, oi, post.glyphs[i].hash);
    }
}

/// Lift the per-key locked-glyph remove lemma over all keys.
proof fn lemma_glyphs_locked_remove_all(gs: Seq<GlyphEntryV>, i: int)
    requires
        0 <= i < gs.len(),
    ensures
        forall|m: u64, c: u32|
            #[trigger] glyphs_locked(gs.remove(i), m, c) == glyphs_locked(gs, m, c) - comp_count(
                gs[i].glyph.colors,
                m,
                c,
            ),
{
    assert forall|m: u64, c: u32| true implies #[trigger] glyphs_locked(gs.remove(i), m, c)
        == glyphs_locked(gs, m, c) - comp_count(gs[i].glyph.colors, m, c) by {
        lemma_glyphs_locked_remove(gs, i, m, c);
    }
}

/// Lift a same-hash glyph replacement over all hashes.
proof fn lemma_glyphs_locked_update_all(gs: Seq<GlyphEntryV>, i: int, e: GlyphEntryV)
    requires
        0 <= i < gs.len(),
    ensures
        forall|m: u64, c: u32|
            #[trigger] glyphs_locked(gs.update(i, e), m, c) == glyphs_locked(gs, m, c)
                - comp_count(gs[i].glyph.colors, m, c) + comp_count(e.glyph.colors, m, c),
{
    assert forall|m: u64, c: u32| true implies #[trigger] glyphs_locked(gs.update(i, e), m, c)
        == glyphs_locked(gs, m, c) - comp_count(gs[i].glyph.colors, m, c) + comp_count(
        e.glyph.colors,
        m,
        c,
    ) by {
        lemma_glyphs_locked_update(gs, i, e, m, c);
    }
}

/// Lift the per-key locked-draft lemmas over all (miner, color) keys.
proof fn lemma_drafts_locked_push_all(ds: Seq<DraftEntryV>, e: DraftEntryV)
    ensures
        forall|m: u64, c: u32|
            #[trigger] drafts_locked(ds.push(e), m, c) == drafts_locked(ds, m, c) + comp_count(
                e.colors,
                m,
                c,
            ),
{
    assert forall|m: u64, c: u32| true implies #[trigger] drafts_locked(ds.push(e), m, c)
        == drafts_locked(ds, m, c) + comp_count(e.colors, m, c) by {
        lemma_drafts_locked_push(ds, e, m, c);
    }
}

proof fn lemma_drafts_locked_update_all(ds: Seq<DraftEntryV>, i: int, e: DraftEntryV)
    requires
        0 <= i < ds.len(),
    ensures
        forall|m: u64, c: u32|
            #[trigger] drafts_locked(ds.update(i, e), m, c) == drafts_locked(ds, m, c)
                - comp_count(ds[i].colors, m, c) + comp_count(e.colors, m, c),
{
    assert forall|m: u64, c: u32| true implies #[trigger] drafts_locked(ds.update(i, e), m, c)
        == drafts_locked(ds, m, c) - comp_count(ds[i].colors, m, c) + comp_count(e.colors, m, c) by {
        lemma_drafts_locked_update(ds, i, e, m, c);
    }
}

proof fn lemma_drafts_locked_remove_all(ds: Seq<DraftEntryV>, i: int)
    requires
        0 <= i < ds.len(),
    ensures
        forall|m: u64, c: u32|
            #[trigger] drafts_locked(ds.remove(i), m, c) == drafts_locked(ds, m, c) - comp_count(
                ds[i].colors,
                m,
                c,
            ),
{
    assert forall|m: u64, c: u32| true implies #[trigger] drafts_locked(ds.remove(i), m, c)
        == drafts_locked(ds, m, c) - comp_count(ds[i].colors, m, c) by {
        lemma_drafts_locked_remove(ds, i, m, c);
    }
}

/// Holdings bookkeeping for a persisting craft call.
proof fn lemma_craft_persist_wrapup(
    pre: crate::types::StoreV,
    post: crate::types::StoreV,
    incv: Seq<MinerColorsV>,
    base: Seq<MinerColorsV>,
    crafter: u64,
    id: Option<u64>,
    rid: u64,
)
    requires
        post.glyphs == pre.glyphs,
        forall|m: u64, c: u32|
            #[trigger] bal_sum(post.balances, m, c) == bal_sum(pre.balances, m, c) - comp_count(
                incv,
                m,
                c,
            ),
        craft_base(pre.drafts, id) == Some(base),
        rid == craft_id(0, crafter, id) || id is None,
        id matches Some(i) ==> rid == i,
        forall|m: u64, c: u32|
            #[trigger] drafts_locked(post.drafts, m, c) == drafts_locked(pre.drafts, m, c) - (
            match draft_lookup(pre.drafts, rid) {
                Some(d) => comp_count(d.colors, m, c),
                None => 0,
            }) + comp_count(comp_merge(base, incv), m, c),
        forall|m: u64, c: u32|
            #[trigger] comp_count(comp_merge(base, incv), m, c) == comp_count(base, m, c)
                + comp_count(incv, m, c),
    ensures
        forall|m: u64, c: u32|
            #[trigger] holdings(post, m, c) == holdings(pre, m, c) - displaced_count(
                pre.drafts,
                id,
                rid,
                m,
                c,
            ),
{
    assert forall|m: u64, c: u32| true implies #[trigger] holdings(post, m, c) == holdings(
        pre,
        m,
        c,
    ) - displaced_count(pre.drafts, id, rid, m, c) by {
        match id {
            Some(i) => {
                assert(draft_lookup(pre.drafts, rid) matches Some(d) && d.colors == base);
            },
            None => {
                assert(base =~= Seq::<MinerColorsV>::empty());
                assert(comp_count(base, m, c) == 0);
            },
        }
    }
}

/// Holdings bookkeeping for a transient craft call: the debited units ride
/// out in the returned composition.
proof fn lemma_craft_transient_wrapup(
    pre: crate::types::StoreV,
    post: crate::types::StoreV,
    incv: Seq<MinerColorsV>,
    crafter: u64,
)
    requires
        post.glyphs == pre.glyphs,
        forall|m: u64, c: u32|
            #[trigger] bal_sum(post.balances, m, c) == bal_sum(pre.balances, m, c) - comp_count(
                incv,
                m,
                c,
            ),
        forall|m: u64, c: u32|
            #[trigger] drafts_locked(post.drafts, m, c) == drafts_locked(pre.drafts, m, c),
    ensures
        forall|m: u64, c: u32|
            #[trigger] holdings(post, m, c) == holdings(pre, m, c) - comp_count(incv, m, c),
{
}

} // verus!
