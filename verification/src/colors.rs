//! The color ledger operations: mining color units against a fee, moving
//! them between owners, and reading a balance.
//!
//! The host authenticates the acting address before calling any of these,
//! emits the returned mint events, and performs the fee transfer through the
//! external token contract; if that transfer fails the host discards the
//! whole call's effects.

use vstd::prelude::*;
use crate::types::{addr_or, BalanceRow, Error, MineReceipt, MinerColorAmount, MinerOwnerColor, Store};
use crate::balances::{
    bal_amount, bal_find, bal_get, bal_lookup, bal_set, bal_sum, bal_copy, bal_unique, bal_upsert,
    lemma_bal_upsert_lookup, lemma_bal_upsert_sum, lemma_bal_upsert_unique, new_bal_row,
};
use crate::store::{holdings, wf_store};

verus! {

/// Units of color `c` minted by a pair list, summing duplicates.
pub open spec fn mine_total(pairs: Seq<(u32, u32)>, c: u32) -> int
    decreases pairs.len(),
{
    if pairs.len() == 0 {
        0
    } else {
        mine_total(pairs.drop_last(), c) + (if pairs.last().0 == c {
            pairs.last().1 as int
        } else {
            0
        })
    }
}

/// The summed fee a mine call charges: every pair's amount, duplicates too.
pub open spec fn mine_grand_total(pairs: Seq<(u32, u32)>) -> int
    decreases pairs.len(),
{
    if pairs.len() == 0 {
        0
    } else {
        mine_grand_total(pairs.drop_last()) + pairs.last().1 as int
    }
}

/// Does some pair name color `c`?
pub open spec fn mine_touches(pairs: Seq<(u32, u32)>, c: u32) -> bool {
    exists|j: int| 0 <= j < pairs.len() && (#[trigger] pairs[j]).0 == c
}

/// A color no pair names mints nothing.
pub proof fn lemma_mine_total_absent(pairs: Seq<(u32, u32)>, c: u32)
    requires
        !mine_touches(pairs, c),
    ensures
        mine_total(pairs, c) == 0,
    decreases pairs.len(),
{
    if pairs.len() > 0 {
        assert(!mine_touches(pairs.drop_last(), c)) by {
            assert(forall|j: int|
                0 <= j < pairs.len() - 1 ==> pairs.drop_last()[j] == #[trigger] pairs[j]);
        }
        assert(pairs.last().0 != c);
        lemma_mine_total_absent(pairs.drop_last(), c);
    }
}

/// Minted totals are never negative.
pub proof fn lemma_mine_total_nonneg(pairs: Seq<(u32, u32)>, c: u32)
    ensures
        mine_total(pairs, c) >= 0,
    decreases pairs.len(),
{
    if pairs.len() > 0 {
        lemma_mine_total_nonneg(pairs.drop_last(), c);
    }
}

/// A prefix never mints more of a color than the whole list.
pub proof fn lemma_mine_total_monotone(pairs: Seq<(u32, u32)>, t: int, c: u32)
    requires
        0 <= t <= pairs.len(),
    ensures
        mine_total(pairs.take(t), c) <= mine_total(pairs, c),
    decreases pairs.len() - t,
{
    if t == pairs.len() {
        assert(pairs.take(t) =~= pairs);
    } else {
        lemma_mine_total_monotone(pairs, t + 1, c);
        assert(pairs.take(t + 1).drop_last() =~= pairs.take(t));
    }
}

/// The fee is bounded by one maximal amount per pair.
pub proof fn lemma_mine_grand_total_bound(pairs: Seq<(u32, u32)>)
    ensures
        0 <= mine_grand_total(pairs) <= pairs.len() * 0xffff_ffff,
    decreases pairs.len(),
{
    if pairs.len() > 0 {
        lemma_mine_grand_total_bound(pairs.drop_last());
    }
}

/// Mine color units: for each (color, amount) pair, in input order, increase
/// the balance of (miner, recipient, color) and record one mint event; the
/// summed amount is the fee the host must charge the miner.  A pair naming
/// the same color twice counts twice.  The recipient defaults to the miner.
pub fn colors_mine(store: &mut Store, miner: u64, to: Option<u64>, colors: &Vec<(u32, u32)>) -> (r:
    MineReceipt)
    requires
        wf_store(old(store)@),
        forall|c: u32|
            bal_amount(old(store)@.balances, miner, addr_or(to, miner), c) + #[trigger] mine_total(
                colors@,
                c,
            ) <= u32::MAX,
    ensures
        wf_store(final(store)@),
        final(store)@.drafts == old(store)@.drafts,
        final(store)@.glyphs == old(store)@.glyphs,
        final(store)@.owners == old(store)@.owners,
        final(store)@.minters == old(store)@.minters,
        final(store)@.offers == old(store)@.offers,
        forall|m: u64, o: u64, c: u32|
            #[trigger] bal_lookup(final(store)@.balances, m, o, c) == (if m == miner && o
                == addr_or(to, miner) && mine_touches(colors@, c) {
                Some(
                    new_bal_row(
                        m,
                        o,
                        c,
                        (bal_amount(old(store)@.balances, m, o, c) + mine_total(
                            colors@,
                            c,
                        )) as u32,
                    ),
                )
            } else {
                bal_lookup(old(store)@.balances, m, o, c)
            }),
        forall|m: u64, c: u32|
            #[trigger] holdings(final(store)@, m, c) == holdings(old(store)@, m, c) + (if m
                == miner {
                mine_total(colors@, c)
            } else {
                0
            }),
        r.pay_amount == mine_grand_total(colors@),
        r.events@.len() == colors@.len(),
        forall|j: int|
            0 <= j < colors@.len() ==> #[trigger] r.events@[j] == (MinerOwnerColor {
                miner,
                owner: addr_or(to, miner),
                color: colors@[j].0,
            }),
{
    let recipient: u64 = match to {
        Some(a) => a,
        None => miner,
    };
    let ghost rows0 = store@.balances;
    let ghost pairs = colors@;
    let mut pay: i128 = 0;
    let mut events: Vec<MinerOwnerColor> = Vec::new();
    let mut j: usize = 0;
    proof {
        assert(pairs.take(0) =~= Seq::<(u32, u32)>::empty());
    }
    while j < colors.len()
        invariant
            j <= pairs.len(),
            pairs == colors@,
            recipient == addr_or(to, miner),
            rows0 == old(store)@.balances,
            bal_unique(rows0),
            forall|c: u32|
                bal_amount(rows0, miner, recipient, c) + #[trigger] mine_total(pairs, c)
                    <= u32::MAX,
            bal_unique(store@.balances),
            store.drafts == old(store).drafts,
            store.glyphs == old(store).glyphs,
            store.owners == old(store).owners,
            store.minters == old(store).minters,
            store.offers == old(store).offers,
            forall|m: u64, o: u64, c: u32|
                #[trigger] bal_lookup(store@.balances, m, o, c) == (if m == miner && o == recipient
                    && mine_touches(pairs.take(j as int), c) {
                    Some(
                        new_bal_row(
                            m,
                            o,
                            c,
                            (bal_amount(rows0, m, o, c) + mine_total(
                                pairs.take(j as int),
                                c,
                            )) as u32,
                        ),
                    )
                } else {
                    bal_lookup(rows0, m, o, c)
                }),
            forall|m: u64, c: u32|
                #[trigger] bal_sum(store@.balances, m, c) == bal_sum(rows0, m, c) + (if m == miner {
                    mine_total(pairs.take(j as int), c)
                } else {
                    0
                }),
            pay == mine_grand_total(pairs.take(j as int)),
            events@.len() == j,
            forall|k: int|
                0 <= k < j ==> #[trigger] events@[k] == (MinerOwnerColor {
                    miner,
                    owner: recipient,
                    color: pairs[k].0,
                }),
        decreases pairs.len() - j,
    {
        let (c, a) = colors[j];
        let ghost pre = pairs.take(j as int);
        let ghost post = pairs.take(j as int + 1);
        proof {
            assert(post.drop_last() =~= pre);
            assert(post.last() == pairs[j as int]);
            assert(pairs[j as int] == (c, a));
            lemma_mine_total_monotone(pairs, j as int + 1, c);
            if !mine_touches(pre, c) {
                lemma_mine_total_absent(pre, c);
            }
            assert(mine_touches(post, c)) by {
                assert(post[j as int] == (c, a));
            }
            lemma_mine_grand_total_bound(pre);
        }
        events.push(MinerOwnerColor { miner, owner: recipient, color: c });
        let cur = bal_get(&store.balances, miner, recipient, c);
        proof {
            lemma_mine_total_monotone(pairs, j as int, c);
            lemma_mine_total_nonneg(pre, c);
            assert(mine_total(post, c) == mine_total(pre, c) + a);
            if mine_touches(pre, c) {
                assert(bal_lookup(store@.balances, miner, recipient, c) == Some(
                    new_bal_row(
                        miner,
                        recipient,
                        c,
                        (bal_amount(rows0, miner, recipient, c) + mine_total(pre, c)) as u32,
                    ),
                ));
                assert(bal_amount(rows0, miner, recipient, c) + mine_total(pre, c) <= u32::MAX);
                assert(cur == bal_amount(rows0, miner, recipient, c) + mine_total(pre, c));
            } else {
                assert(cur == bal_amount(rows0, miner, recipient, c));
            }
            assert(cur + a == bal_amount(rows0, miner, recipient, c) + mine_total(post, c));
            assert(cur + a <= u32::MAX);
        }
        let updated = cur + a;
        let ghost rows_before = store@.balances;
        bal_set(&mut store.balances, miner, recipient, c, updated);
        pay = pay + a as i128;
        proof {
            lemma_bal_upsert_lookup(rows_before, miner, recipient, c, updated);
            lemma_bal_upsert_sum(rows_before, miner, recipient, c, updated);
            lemma_bal_upsert_unique(rows_before, miner, recipient, c, updated);
            assert forall|m: u64, o: u64, c2: u32| true implies #[trigger] bal_lookup(
                store@.balances,
                m,
                o,
                c2,
            ) == (if m == miner && o == recipient && mine_touches(post, c2) {
                Some(
                    new_bal_row(
                        m,
                        o,
                        c2,
                        (bal_amount(rows0, m, o, c2) + mine_total(post, c2)) as u32,
                    ),
                )
            } else {
                bal_lookup(rows0, m, o, c2)
            }) by {
                if m == miner && o == recipient && c2 != c {
                    assert(mine_touches(post, c2) == mine_touches(pre, c2)) by {
                        assert(forall|k: int| 0 <= k < j ==> post[k] == #[trigger] pre[k]);
                        if mine_touches(post, c2) {
                            let w = choose|k: int|
                                0 <= k < post.len() && (#[trigger] post[k]).0 == c2;
                            assert(w != j);
                            assert(pre[w] == post[w]);
                        }
                        if mine_touches(pre, c2) {
                            let w = choose|k: int|
                                0 <= k < pre.len() && (#[trigger] pre[k]).0 == c2;
                            assert(post[w] == pre[w]);
                        }
                    }
                    assert(mine_total(post, c2) == mine_total(pre, c2));
                }
            }
            assert(mine_grand_total(post) == mine_grand_total(pre) + a);
        }
        j += 1;
    }
    proof {
        assert(pairs.take(pairs.len() as int) =~= pairs);
        assert forall|m: u64, c: u32| true implies #[trigger] holdings(store@, m, c) == holdings(
            old(store)@,
            m,
            c,
        ) + (if m == miner {
            mine_total(pairs, c)
        } else {
            0
        }) by {
            assert(store@.drafts == old(store)@.drafts);
            assert(store@.glyphs == old(store)@.glyphs);
        }
    }
    MineReceipt { pay_amount: pay, events }
}

/// The outcome of replaying a transfer's entries, in order, against the
/// ledger: the rows they produce, or the first failure — a debit that would
/// underflow, or a credit that would overflow.
pub enum TransferFold {
    Done(Seq<BalanceRow>),
    Short,
    Over,
}

/// Replay a transfer entry by entry: debit (miner, from, color), then credit
/// (miner, to, color).  Later entries see earlier entries' writes.
pub open spec fn xfer_fold(
    rows: Seq<BalanceRow>,
    from: u64,
    to: u64,
    entries: Seq<MinerColorAmount>,
) -> TransferFold
    decreases entries.len(),
{
    if entries.len() == 0 {
        TransferFold::Done(rows)
    } else {
        let e = entries[0];
        let cur_from = bal_amount(rows, e.miner, from, e.color);
        if cur_from < e.amount {
            TransferFold::Short
        } else {
            let rows1 = bal_upsert(rows, e.miner, from, e.color, (cur_from - e.amount) as u32);
            let cur_to = bal_amount(rows1, e.miner, to, e.color);
            if cur_to + e.amount > u32::MAX {
                TransferFold::Over
            } else {
                xfer_fold(
                    bal_upsert(rows1, e.miner, to, e.color, (cur_to + e.amount) as u32),
                    from,
                    to,
                    entries.drop_first(),
                )
            }
        }
    }
}

/// Transfer color units between owners, entry by entry, with no fee.  The
/// whole call succeeds or changes nothing: a debit below zero fails it with
/// `InsufficientColor`.  Credits that would overflow a balance are ruled out
/// by the caller, as the host aborts on them.
pub fn colors_transfer(
    store: &mut Store,
    from: u64,
    to: u64,
    colors: &Vec<MinerColorAmount>,
) -> (r: Result<(), Error>)
    requires
        wf_store(old(store)@),
        !(xfer_fold(old(store)@.balances, from, to, colors@) is Over),
    ensures
        wf_store(final(store)@),
        r is Err <==> xfer_fold(old(store)@.balances, from, to, colors@) is Short,
        match r {
            Ok(_) => xfer_fold(old(store)@.balances, from, to, colors@) == TransferFold::Done(
                final(store)@.balances,
            ),
            Err(e) => e == Error::InsufficientColor && *final(store) == *old(store),
        },
        final(store)@.drafts == old(store)@.drafts,
        final(store)@.glyphs == old(store)@.glyphs,
        final(store)@.owners == old(store)@.owners,
        final(store)@.minters == old(store)@.minters,
        final(store)@.offers == old(store)@.offers,
        forall|m: u64, c: u32|
            #[trigger] holdings(final(store)@, m, c) == holdings(old(store)@, m, c),
{
    let ghost rows0 = store@.balances;
    let ghost entries = colors@;
    let mut scratch = bal_copy(&store.balances);
    let mut j: usize = 0;
    proof {
        assert(entries.skip(0) =~= entries);
    }
    while j < colors.len()
        invariant
            j <= entries.len(),
            entries == colors@,
            rows0 == old(store)@.balances,
            wf_store(old(store)@),
            *store == *old(store),
            bal_unique(scratch@),
            !(xfer_fold(rows0, from, to, entries) is Over),
            xfer_fold(scratch@, from, to, entries.skip(j as int)) == xfer_fold(
                rows0,
                from,
                to,
                entries,
            ),
            forall|m: u64, c: u32| #[trigger] bal_sum(scratch@, m, c) == bal_sum(rows0, m, c),
        decreases entries.len() - j,
    {
        let e = colors[j];
        let ghost rest = entries.skip(j as int);
        proof {
            assert(rest[0] == entries[j as int]);
            assert(rest.drop_first() =~= entries.skip(j as int + 1));
        }
        let cur_from = bal_get(&scratch, e.miner, from, e.color);
        if cur_from < e.amount {
            proof {
                assert(xfer_fold(scratch@, from, to, rest) is Short);
            }
            return Err(Error::InsufficientColor);
        }
        let ghost s0 = scratch@;
        bal_set(&mut scratch, e.miner, from, e.color, cur_from - e.amount);
        proof {
            lemma_bal_upsert_unique(s0, e.miner, from, e.color, (cur_from - e.amount) as u32);
            lemma_bal_upsert_sum(s0, e.miner, from, e.color, (cur_from - e.amount) as u32);
        }
        let cur_to = bal_get(&scratch, e.miner, to, e.color);
        proof {
            if cur_to + e.amount > u32::MAX {
                assert(xfer_fold(s0, from, to, rest) is Over);
                assert(false);
            }
        }
        let ghost s1 = scratch@;
        bal_set(&mut scratch, e.miner, to, e.color, cur_to + e.amount);
        proof {
            lemma_bal_upsert_unique(s1, e.miner, to, e.color, (cur_to + e.amount) as u32);
            lemma_bal_upsert_sum(s1, e.miner, to, e.color, (cur_to + e.amount) as u32);
            assert(xfer_fold(scratch@, from, to, entries.skip(j as int + 1)) == xfer_fold(
                rows0,
                from,
                to,
                entries,
            ));
        }
        j += 1;
    }
    proof {
        assert(entries.skip(entries.len() as int) =~= Seq::<MinerColorAmount>::empty());
        assert(xfer_fold(rows0, from, to, entries) == TransferFold::Done(scratch@));
    }
    store.balances = scratch;
    proof {
        assert forall|m: u64, c: u32| true implies #[trigger] holdings(store@, m, c) == holdings(
            old(store)@,
            m,
            c,
        ) by {
            assert(store@.drafts == old(store)@.drafts);
            assert(store@.glyphs == old(store)@.glyphs);
        }
    }
    Ok(())
}

/// Read the balance of (miner, owner, color); the miner defaults to the
/// owner, and a missing row reads as zero.  Like every access to a mutable
/// record, reading a live row refreshes its retention timer; a missing row
/// leaves the ledger untouched.
pub fn color_balance(store: &mut Store, owner: u64, miner: Option<u64>, color: u32) -> (amt: u32)
    requires
        wf_store(old(store)@),
    ensures
        wf_store(final(store)@),
        amt == bal_amount(old(store)@.balances, addr_or(miner, owner), owner, color),
        final(store)@.drafts == old(store)@.drafts,
        final(store)@.glyphs == old(store)@.glyphs,
        final(store)@.owners == old(store)@.owners,
        final(store)@.minters == old(store)@.minters,
        final(store)@.offers == old(store)@.offers,
        ({
            let m = addr_or(miner, owner);
            match bal_lookup(old(store)@.balances, m, owner, color) {
                Some(row) => bal_lookup(final(store)@.balances, m, owner, color) == Some(
                    new_bal_row(m, owner, color, row.amount),
                ) && (forall|m2: u64, o2: u64, c2: u32|
                    !(m2 == m && o2 == owner && c2 == color) ==> #[trigger] bal_lookup(
                        final(store)@.balances,
                        m2,
                        o2,
                        c2,
                    ) == bal_lookup(old(store)@.balances, m2, o2, c2)),
                None => final(store)@.balances == old(store)@.balances,
            }
        }),
        forall|m2: u64, c2: u32|
            #[trigger] holdings(final(store)@, m2, c2) == holdings(old(store)@, m2, c2),
{
    let m: u64 = match miner {
        Some(a) => a,
        None => owner,
    };
    let ghost rows0 = store@.balances;
    let amt = bal_get(&store.balances, m, owner, color);
    if bal_find(&store.balances, m, owner, color).is_some() {
        bal_set(&mut store.balances, m, owner, color, amt);
        proof {
            lemma_bal_upsert_lookup(rows0, m, owner, color, amt);
            lemma_bal_upsert_sum(rows0, m, owner, color, amt);
            lemma_bal_upsert_unique(rows0, m, owner, color, amt);
        }
    }
    proof {
        assert forall|m2: u64, c2: u32| true implies #[trigger] holdings(store@, m2, c2)
            == holdings(old(store)@, m2, c2) by {
            assert(bal_sum(store@.balances, m2, c2) == bal_sum(rows0, m2, c2));
            assert(store@.drafts == old(store)@.drafts);
            assert(store@.glyphs == old(store)@.glyphs);
        }
    }
    amt
}

} // verus!
