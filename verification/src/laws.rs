//! Laws that hold across operations.  Conservation of color units is stated
//! as the `holdings` clause on every mutating operation's contract; the
//! ownership gate and atomic-failure guarantees are clauses of
//! `glyph_transfer`, `glyph_scrape`, `colors_transfer` and `glyph_craft`.
//! What relates several operations at once is proved here.

use vstd::prelude::*;
use crate::types::{BalanceRow, ColorIndexesV, MinerColorAmount, MinerColorsV, MAX_PAYMENT_COUNT};
use crate::balances::{
    bal_amount, bal_lookup, bal_unique, bal_upsert, lemma_bal_upsert_lookup,
    lemma_bal_upsert_unique,
};
use crate::colors::{xfer_fold, TransferFold};
use crate::comp::entry_count;
use crate::encode::encoded;
use crate::hashing::sha256_of;
use crate::glyphs::{debit_colors, debit_comp, drain_comp, drain_rows};

verus! {

/// Content addressing: any two compositions that encode to the same byte
/// buffer (width suffix included) finalize to the same content hash, however
/// differently they arrange their miners, colors and indices.
pub proof fn lemma_content_addressed(
    c1: Seq<MinerColorsV>,
    w1: u32,
    c2: Seq<MinerColorsV>,
    w2: u32,
)
    requires
        encoded(c1, w1) == encoded(c2, w2),
    ensures
        sha256_of(encoded(c1, w1)) == sha256_of(encoded(c2, w2)),
{
}

/// Round trip: craft a draft that spends `idxs.len()` units of one color
/// mined by `m`, then scrape it fully back to the crafter.  One batch
/// suffices — the remainder is empty, so the records are deleted and no
/// successor id is reported — and every balance ends exactly where it
/// started.
pub proof fn lemma_round_trip(rows0: Seq<BalanceRow>, crafter: u64, m: u64, c: u32, idxs: Seq<u32>)
    requires
        bal_unique(rows0),
        idxs.len() <= bal_amount(rows0, m, crafter, c),
    ensures
        ({
            let comp = seq![
                MinerColorsV {
                    miner: m,
                    colors: seq![ColorIndexesV { color: c, indexes: idxs }],
                },
            ];
            let debited = debit_comp(Some(rows0), crafter, comp);
            &&& debited is Some
            &&& drain_comp(comp, MAX_PAYMENT_COUNT as int).len() == 0
            &&& drain_rows(debited, crafter, comp, MAX_PAYMENT_COUNT as int) is Some
            &&& forall|m2: u64, o2: u64, c2: u32|
                #[trigger] bal_amount(
                    drain_rows(debited, crafter, comp, MAX_PAYMENT_COUNT as int)->Some_0,
                    m2,
                    o2,
                    c2,
                ) == bal_amount(rows0, m2, o2, c2)
        }),
{
    let comp = seq![
        MinerColorsV { miner: m, colors: seq![ColorIndexesV { color: c, indexes: idxs }] },
    ];
    let cur0 = bal_amount(rows0, m, crafter, c);
    let rows1 = bal_upsert(rows0, m, crafter, c, (cur0 - idxs.len()) as u32);
    lemma_bal_upsert_lookup(rows0, m, crafter, c, (cur0 - idxs.len()) as u32);
    lemma_bal_upsert_unique(rows0, m, crafter, c, (cur0 - idxs.len()) as u32);
    assert(comp[0].colors.drop_first() =~= Seq::<ColorIndexesV>::empty());
    assert(comp.drop_first() =~= Seq::<MinerColorsV>::empty());
    assert(debit_colors(Some(rows1), crafter, m, comp[0].colors.drop_first()) == Some(rows1));
    assert(debit_colors(Some(rows0), crafter, m, comp[0].colors) == Some(rows1));
    assert(debit_comp(Some(rows1), crafter, comp.drop_first()) == Some(rows1));
    assert(debit_comp(Some(rows0), crafter, comp) == Some(rows1));
    assert(drain_comp(comp.drop_first(), MAX_PAYMENT_COUNT as int - 1).len() == 0);
    assert(drain_comp(comp, MAX_PAYMENT_COUNT as int) =~= Seq::<MinerColorsV>::empty());
    let cur1 = bal_amount(rows1, m, crafter, c);
    assert(cur1 == cur0 - idxs.len());
    let rows2 = bal_upsert(rows1, m, crafter, c, (cur1 + idxs.len()) as u32);
    lemma_bal_upsert_lookup(rows1, m, crafter, c, (cur1 + idxs.len()) as u32);
    assert(drain_rows(Some(rows2), crafter, comp.drop_first(), MAX_PAYMENT_COUNT as int - 1)
        == Some(rows2));
    assert(drain_rows(Some(rows1), crafter, comp, MAX_PAYMENT_COUNT as int) == Some(rows2));
    assert forall|m2: u64, o2: u64, c2: u32| true implies #[trigger] bal_amount(rows2, m2, o2, c2)
        == bal_amount(rows0, m2, o2, c2) by {
        if m2 == m && o2 == crafter && c2 == c {
            assert(bal_lookup(rows2, m, crafter, c) matches Some(r) && r.amount == cur0);
        }
    }
}

/// Transferring to oneself moves nothing: when sender and recipient
/// coincide, a successful replay leaves every balance amount exactly where
/// it was — each debit is undone at once by its credit to the same row, and
/// only that row's retention timer refreshes.
pub proof fn lemma_self_transfer(rows: Seq<BalanceRow>, a: u64, entries: Seq<MinerColorAmount>)
    requires
        xfer_fold(rows, a, a, entries) is Done,
    ensures
        forall|m2: u64, o2: u64, c2: u32|
            #[trigger] bal_amount(xfer_fold(rows, a, a, entries)->Done_0, m2, o2, c2)
                == bal_amount(rows, m2, o2, c2),
    decreases entries.len(),
{
    if entries.len() > 0 {
        let e = entries[0];
        let cur = bal_amount(rows, e.miner, a, e.color);
        assert(cur >= e.amount);
        let rows1 = bal_upsert(rows, e.miner, a, e.color, (cur - e.amount) as u32);
        lemma_bal_upsert_lookup(rows, e.miner, a, e.color, (cur - e.amount) as u32);
        let cur_to = bal_amount(rows1, e.miner, a, e.color);
        assert(cur_to == cur - e.amount);
        let rows2 = bal_upsert(rows1, e.miner, a, e.color, (cur_to + e.amount) as u32);
        lemma_bal_upsert_lookup(rows1, e.miner, a, e.color, (cur_to + e.amount) as u32);
        assert(xfer_fold(rows, a, a, entries) == xfer_fold(rows2, a, a, entries.drop_first()));
        lemma_self_transfer(rows2, a, entries.drop_first());
        assert forall|m2: u64, o2: u64, c2: u32| true implies #[trigger] bal_amount(
            xfer_fold(rows, a, a, entries)->Done_0,
            m2,
            o2,
            c2,
        ) == bal_amount(rows, m2, o2, c2) by {
            assert(bal_amount(xfer_fold(rows2, a, a, entries.drop_first())->Done_0, m2, o2, c2)
                == bal_amount(rows2, m2, o2, c2));
            if m2 == e.miner && o2 == a && c2 == e.color {
                assert(bal_lookup(rows2, m2, o2, c2) matches Some(r) && r.amount == cur);
            }
        }
    }
}

/// Batch boundary: scraping a composition with more than
/// [`MAX_PAYMENT_COUNT`] (miner, color) entries in one call consumes exactly
/// the cap and leaves the rest; one with no more than the cap drains
/// completely.  Holds of compositions with no colorless miner entries, which
/// is every composition a craft call can build; the remainder keeps that
/// shape, so a follow-up call on the remainder behaves the same way.
pub proof fn lemma_batch_boundary(comp: Seq<MinerColorsV>, budget: int)
    requires
        budget >= 0,
        forall|i: int| 0 <= i < comp.len() ==> (#[trigger] comp[i]).colors.len() > 0,
    ensures
        entry_count(comp) > budget ==> entry_count(drain_comp(comp, budget)) == entry_count(comp)
            - budget,
        entry_count(comp) <= budget ==> drain_comp(comp, budget).len() == 0,
        forall|i: int|
            0 <= i < drain_comp(comp, budget).len() ==> (#[trigger] drain_comp(comp, budget)[i]).colors.len()
                > 0,
    decreases comp.len(), (if comp.len() > 0 {
        comp[0].colors.len() + 1
    } else {
        0
    }),
{
    lemma_entry_count_nonneg(comp);
    if comp.len() == 0 || budget <= 0 {
        if comp.len() > 0 {
            assert(entry_count(comp) > 0) by {
                lemma_entry_count_nonneg(comp.drop_first());
            }
        }
    } else {
        let rest0 = MinerColorsV { miner: comp[0].miner, colors: comp[0].colors.drop_first() };
        if rest0.colors.len() == 0 {
            assert(forall|i: int|
                0 <= i < comp.drop_first().len() ==> (#[trigger] comp.drop_first()[i]).colors.len()
                    > 0);
            lemma_batch_boundary(comp.drop_first(), budget - 1);
            assert(entry_count(comp) == comp[0].colors.len() + entry_count(comp.drop_first()));
        } else {
            let comp1 = seq![rest0] + comp.drop_first();
            assert(forall|i: int|
                1 <= i < comp1.len() ==> comp1[i] == #[trigger] comp.drop_first()[i - 1]);
            assert(forall|i: int|
                0 <= i < comp1.len() ==> (#[trigger] comp1[i]).colors.len() > 0);
            lemma_batch_boundary(comp1, budget - 1);
            assert(comp1.drop_first() =~= comp.drop_first());
            assert(entry_count(comp1) == rest0.colors.len() + entry_count(comp.drop_first()));
            assert(entry_count(comp) == comp[0].colors.len() + entry_count(comp.drop_first()));
        }
    }
}

/// Two bounded batches drain any composition of at most twice the cap: the
/// first leaves exactly the excess, the second finishes and reports
/// completion.
pub proof fn lemma_two_batches_complete(comp: Seq<MinerColorsV>)
    requires
        forall|i: int| 0 <= i < comp.len() ==> (#[trigger] comp[i]).colors.len() > 0,
        MAX_PAYMENT_COUNT < entry_count(comp) <= 2 * MAX_PAYMENT_COUNT,
    ensures
        entry_count(drain_comp(comp, MAX_PAYMENT_COUNT as int)) == entry_count(comp)
            - MAX_PAYMENT_COUNT,
        drain_comp(
            drain_comp(comp, MAX_PAYMENT_COUNT as int),
            MAX_PAYMENT_COUNT as int,
        ).len() == 0,
{
    lemma_batch_boundary(comp, MAX_PAYMENT_COUNT as int);
    lemma_batch_boundary(drain_comp(comp, MAX_PAYMENT_COUNT as int), MAX_PAYMENT_COUNT as int);
}

/// Entry counts are never negative.
proof fn lemma_entry_count_nonneg(comp: Seq<MinerColorsV>)
    ensures
        entry_count(comp) >= 0,
    decreases comp.len(),
{
    if comp.len() > 0 {
        lemma_entry_count_nonneg(comp.drop_first());
    }
}

} // verus!
