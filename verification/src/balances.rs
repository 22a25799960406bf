//! The color ledger table: per-(miner, owner, color) balance rows, with the
//! specs and lemmas every operation uses to read and write them.

use vstd::prelude::*;
use crate::types::{BalanceRow, MAX_RETENTION};

verus! {

/// Does row `r` carry the key (miner `m`, owner `o`, color `c`)?
pub open spec fn bal_key(r: BalanceRow, m: u64, o: u64, c: u32) -> bool {
    r.miner == m && r.owner == o && r.color == c
}

/// The first row with the given key, if any.
pub open spec fn bal_lookup(rows: Seq<BalanceRow>, m: u64, o: u64, c: u32) -> Option<BalanceRow>
    decreases rows.len(),
{
    if rows.len() == 0 {
        None
    } else if bal_key(rows[0], m, o, c) {
        Some(rows[0])
    } else {
        bal_lookup(rows.drop_first(), m, o, c)
    }
}

/// The balance held under a key; a missing row reads as zero.
pub open spec fn bal_amount(rows: Seq<BalanceRow>, m: u64, o: u64, c: u32) -> u32 {
    match bal_lookup(rows, m, o, c) {
        Some(r) => r.amount,
        None => 0,
    }
}

/// A freshly written row: the new amount, retention refreshed to the maximum.
pub open spec fn new_bal_row(m: u64, o: u64, c: u32, amt: u32) -> BalanceRow {
    BalanceRow { miner: m, owner: o, color: c, amount: amt, retention: MAX_RETENTION }
}

/// Write `amt` under a key: replace the first row with that key, or append a
/// new row if none exists.  Every ledger write is of this shape.
pub open spec fn bal_upsert(rows: Seq<BalanceRow>, m: u64, o: u64, c: u32, amt: u32) -> Seq<
    BalanceRow,
>
    decreases rows.len(),
{
    if rows.len() == 0 {
        seq![new_bal_row(m, o, c, amt)]
    } else if bal_key(rows[0], m, o, c) {
        seq![new_bal_row(m, o, c, amt)] + rows.drop_first()
    } else {
        seq![rows[0]] + bal_upsert(rows.drop_first(), m, o, c, amt)
    }
}

/// No two rows share a key.
pub open spec fn bal_unique(rows: Seq<BalanceRow>) -> bool {
    forall|i: int, j: int|
        0 <= i < j < rows.len() ==> !bal_key(
            #[trigger] rows[i],
            (#[trigger] rows[j]).miner,
            rows[j].owner,
            rows[j].color,
        )
}

/// What row `r` contributes to the total held for (miner `m`, color `c`).
pub open spec fn bal_contrib(r: BalanceRow, m: u64, c: u32) -> int {
    if r.miner == m && r.color == c {
        r.amount as int
    } else {
        0
    }
}

/// Total units of (miner `m`, color `c`) across all owners' rows.
pub open spec fn bal_sum(rows: Seq<BalanceRow>, m: u64, c: u32) -> int
    decreases rows.len(),
{
    if rows.len() == 0 {
        0
    } else {
        bal_contrib(rows[0], m, c) + bal_sum(rows.drop_first(), m, c)
    }
}

/// An upsert writes its key and leaves every other key's row unchanged.
pub proof fn lemma_bal_upsert_lookup(rows: Seq<BalanceRow>, m: u64, o: u64, c: u32, amt: u32)
    ensures
        bal_lookup(bal_upsert(rows, m, o, c, amt), m, o, c) == Some(new_bal_row(m, o, c, amt)),
        forall|m2: u64, o2: u64, c2: u32|
            !(m2 == m && o2 == o && c2 == c) ==> #[trigger] bal_lookup(
                bal_upsert(rows, m, o, c, amt),
                m2,
                o2,
                c2,
            ) == bal_lookup(rows, m2, o2, c2),
    decreases rows.len(),
{
    let up = bal_upsert(rows, m, o, c, amt);
    if rows.len() == 0 {
        assert(up =~= seq![new_bal_row(m, o, c, amt)]);
        assert(up.drop_first() =~= Seq::<BalanceRow>::empty());
        assert forall|m2: u64, o2: u64, c2: u32| !(m2 == m && o2 == o && c2 == c) implies #[trigger] bal_lookup(
            up,
            m2,
            o2,
            c2,
        ) == bal_lookup(rows, m2, o2, c2) by {
            assert(!bal_key(up[0], m2, o2, c2));
            assert(bal_lookup(up.drop_first(), m2, o2, c2) is None);
        }
    } else if bal_key(rows[0], m, o, c) {
        assert(up[0] == new_bal_row(m, o, c, amt));
        assert(up.drop_first() =~= rows.drop_first());
        assert forall|m2: u64, o2: u64, c2: u32| !(m2 == m && o2 == o && c2 == c) implies #[trigger] bal_lookup(
            up,
            m2,
            o2,
            c2,
        ) == bal_lookup(rows, m2, o2, c2) by {
            assert(!bal_key(up[0], m2, o2, c2));
            assert(!bal_key(rows[0], m2, o2, c2));
            assert(bal_lookup(up, m2, o2, c2) == bal_lookup(up.drop_first(), m2, o2, c2));
            assert(bal_lookup(rows, m2, o2, c2) == bal_lookup(rows.drop_first(), m2, o2, c2));
        }
    } else {
        lemma_bal_upsert_lookup(rows.drop_first(), m, o, c, amt);
        assert(up[0] == rows[0]);
        assert(up.drop_first() =~= bal_upsert(rows.drop_first(), m, o, c, amt));
        assert forall|m2: u64, o2: u64, c2: u32| !(m2 == m && o2 == o && c2 == c) implies #[trigger] bal_lookup(
            up,
            m2,
            o2,
            c2,
        ) == bal_lookup(rows, m2, o2, c2) by {
            if bal_key(rows[0], m2, o2, c2) {
                assert(bal_lookup(up, m2, o2, c2) == Some(up[0]));
                assert(bal_lookup(rows, m2, o2, c2) == Some(rows[0]));
            } else {
                assert(bal_lookup(up, m2, o2, c2) == bal_lookup(up.drop_first(), m2, o2, c2));
                assert(bal_lookup(rows, m2, o2, c2) == bal_lookup(
                    rows.drop_first(),
                    m2,
                    o2,
                    c2,
                ));
            }
        }
    }
}

/// An upsert moves the (miner, color) total by exactly the difference between
/// the new amount and the amount previously held under its key.
pub proof fn lemma_bal_upsert_sum(rows: Seq<BalanceRow>, m: u64, o: u64, c: u32, amt: u32)
    ensures
        forall|m2: u64, c2: u32|
            #[trigger] bal_sum(bal_upsert(rows, m, o, c, amt), m2, c2) == bal_sum(rows, m2, c2) + (
            if m2 == m && c2 == c {
                amt - bal_amount(rows, m, o, c)
            } else {
                0
            }),
    decreases rows.len(),
{
    let up = bal_upsert(rows, m, o, c, amt);
    if rows.len() == 0 {
        assert forall|m2: u64, c2: u32| true implies #[trigger] bal_sum(up, m2, c2) == bal_sum(
            rows,
            m2,
            c2,
        ) + (if m2 == m && c2 == c {
            amt - bal_amount(rows, m, o, c)
        } else {
            0
        }) by {
            assert(up[0] == new_bal_row(m, o, c, amt));
            assert(up.drop_first() =~= Seq::<BalanceRow>::empty());
            assert(bal_sum(up, m2, c2) == bal_contrib(up[0], m2, c2) + bal_sum(
                up.drop_first(),
                m2,
                c2,
            ));
            assert(bal_sum(up.drop_first(), m2, c2) == 0);
        }
    } else if bal_key(rows[0], m, o, c) {
        assert forall|m2: u64, c2: u32| true implies #[trigger] bal_sum(up, m2, c2) == bal_sum(
            rows,
            m2,
            c2,
        ) + (if m2 == m && c2 == c {
            amt - bal_amount(rows, m, o, c)
        } else {
            0
        }) by {
            assert(up[0] == new_bal_row(m, o, c, amt));
            assert(up.drop_first() =~= rows.drop_first());
            assert(bal_sum(up, m2, c2) == bal_contrib(up[0], m2, c2) + bal_sum(
                up.drop_first(),
                m2,
                c2,
            ));
            assert(bal_sum(rows, m2, c2) == bal_contrib(rows[0], m2, c2) + bal_sum(
                rows.drop_first(),
                m2,
                c2,
            ));
            assert(bal_amount(rows, m, o, c) == rows[0].amount);
        }
    } else {
        lemma_bal_upsert_sum(rows.drop_first(), m, o, c, amt);
        assert forall|m2: u64, c2: u32| true implies #[trigger] bal_sum(up, m2, c2) == bal_sum(
            rows,
            m2,
            c2,
        ) + (if m2 == m && c2 == c {
            amt - bal_amount(rows, m, o, c)
        } else {
            0
        }) by {
            assert(up[0] == rows[0]);
            assert(up.drop_first() =~= bal_upsert(rows.drop_first(), m, o, c, amt));
            assert(bal_sum(up, m2, c2) == bal_contrib(up[0], m2, c2) + bal_sum(
                up.drop_first(),
                m2,
                c2,
            ));
            assert(bal_sum(rows, m2, c2) == bal_contrib(rows[0], m2, c2) + bal_sum(
                rows.drop_first(),
                m2,
                c2,
            ));
            assert(bal_amount(rows, m, o, c) == bal_amount(rows.drop_first(), m, o, c));
        }
    }
}

/// When the key's first match sits at index `i`, the upsert is an update.
pub proof fn lemma_bal_upsert_is_update(
    rows: Seq<BalanceRow>,
    m: u64,
    o: u64,
    c: u32,
    amt: u32,
    i: int,
)
    requires
        0 <= i < rows.len(),
        bal_key(rows[i], m, o, c),
        forall|j: int| 0 <= j < i ==> !bal_key(#[trigger] rows[j], m, o, c),
    ensures
        bal_upsert(rows, m, o, c, amt) =~= rows.update(i, new_bal_row(m, o, c, amt)),
    decreases i,
{
    if i == 0 {
        assert(bal_upsert(rows, m, o, c, amt) =~= rows.update(0, new_bal_row(m, o, c, amt)));
    } else {
        lemma_bal_upsert_is_update(rows.drop_first(), m, o, c, amt, i - 1);
        assert(bal_upsert(rows, m, o, c, amt) =~= seq![rows[0]] + bal_upsert(
            rows.drop_first(),
            m,
            o,
            c,
            amt,
        ));
        assert(rows.drop_first().update(i - 1, new_bal_row(m, o, c, amt)) =~= rows.update(
            i,
            new_bal_row(m, o, c, amt),
        ).drop_first());
    }
}

/// When the key is absent, the upsert is a push.
pub proof fn lemma_bal_upsert_is_push(rows: Seq<BalanceRow>, m: u64, o: u64, c: u32, amt: u32)
    requires
        forall|j: int| 0 <= j < rows.len() ==> !bal_key(#[trigger] rows[j], m, o, c),
    ensures
        bal_upsert(rows, m, o, c, amt) =~= rows.push(new_bal_row(m, o, c, amt)),
    decreases rows.len(),
{
    if rows.len() > 0 {
        lemma_bal_upsert_is_push(rows.drop_first(), m, o, c, amt);
        assert(rows.drop_first().push(new_bal_row(m, o, c, amt)) =~= rows.push(
            new_bal_row(m, o, c, amt),
        ).drop_first());
        assert(bal_upsert(rows, m, o, c, amt) =~= rows.push(new_bal_row(m, o, c, amt)));
    }
}

/// Wherever a key has some match, it has a first match.
pub proof fn lemma_bal_first_match(rows: Seq<BalanceRow>, m: u64, o: u64, c: u32, i0: int)
    requires
        0 <= i0 < rows.len(),
        bal_key(rows[i0], m, o, c),
    ensures
        exists|i: int|
            0 <= i < rows.len() && bal_key(#[trigger] rows[i], m, o, c) && (forall|j: int|
                0 <= j < i ==> !bal_key(#[trigger] rows[j], m, o, c)),
    decreases i0,
{
    if forall|j: int| 0 <= j < i0 ==> !bal_key(#[trigger] rows[j], m, o, c) {
        assert(0 <= i0 < rows.len() && bal_key(rows[i0], m, o, c) && (forall|j: int|
            0 <= j < i0 ==> !bal_key(#[trigger] rows[j], m, o, c)));
    } else {
        let j0 = choose|j: int| 0 <= j < i0 && bal_key(#[trigger] rows[j], m, o, c);
        lemma_bal_first_match(rows, m, o, c, j0);
    }
}

/// An upsert never disturbs row uniqueness.
pub proof fn lemma_bal_upsert_unique(rows: Seq<BalanceRow>, m: u64, o: u64, c: u32, amt: u32)
    requires
        bal_unique(rows),
    ensures
        bal_unique(bal_upsert(rows, m, o, c, amt)),
{
    if exists|i: int| 0 <= i < rows.len() && bal_key(#[trigger] rows[i], m, o, c) {
        let i0 = choose|i: int| 0 <= i < rows.len() && bal_key(#[trigger] rows[i], m, o, c);
        lemma_bal_first_match(rows, m, o, c, i0);
        let i = choose|i: int|
            0 <= i < rows.len() && bal_key(#[trigger] rows[i], m, o, c) && (forall|j: int|
                0 <= j < i ==> !bal_key(#[trigger] rows[j], m, o, c));
        lemma_bal_upsert_is_update(rows, m, o, c, amt, i);
    } else {
        lemma_bal_upsert_is_push(rows, m, o, c, amt);
    }
}

/// The first match at index `i` is what the lookup returns.
pub proof fn lemma_bal_lookup_at(rows: Seq<BalanceRow>, m: u64, o: u64, c: u32, i: int)
    requires
        0 <= i < rows.len(),
        bal_key(rows[i], m, o, c),
        forall|j: int| 0 <= j < i ==> !bal_key(#[trigger] rows[j], m, o, c),
    ensures
        bal_lookup(rows, m, o, c) == Some(rows[i]),
    decreases i,
{
    if i > 0 {
        lemma_bal_lookup_at(rows.drop_first(), m, o, c, i - 1);
    }
}

/// A key with no match looks up to `None`.
pub proof fn lemma_bal_lookup_none(rows: Seq<BalanceRow>, m: u64, o: u64, c: u32)
    requires
        forall|j: int| 0 <= j < rows.len() ==> !bal_key(#[trigger] rows[j], m, o, c),
    ensures
        bal_lookup(rows, m, o, c) is None,
    decreases rows.len(),
{
    if rows.len() > 0 {
        lemma_bal_lookup_none(rows.drop_first(), m, o, c);
    }
}

/// Find the index of the first row with the given key.
pub fn bal_find(rows: &Vec<BalanceRow>, m: u64, o: u64, c: u32) -> (r: Option<usize>)
    ensures
        match r {
            Some(i) => i < rows@.len() && bal_key(rows@[i as int], m, o, c) && (forall|j: int|
                0 <= j < i ==> !bal_key(#[trigger] rows@[j], m, o, c)) && bal_lookup(
                rows@,
                m,
                o,
                c,
            ) == Some(rows@[i as int]),
            None => bal_lookup(rows@, m, o, c) is None && (forall|j: int|
                0 <= j < rows@.len() ==> !bal_key(#[trigger] rows@[j], m, o, c)),
        },
{
    let mut i: usize = 0;
    while i < rows.len()
        invariant
            i <= rows@.len(),
            forall|j: int| 0 <= j < i ==> !bal_key(#[trigger] rows@[j], m, o, c),
        decreases rows@.len() - i,
    {
        let r = &rows[i];
        if r.miner == m && r.owner == o && r.color == c {
            proof {
                lemma_bal_lookup_at(rows@, m, o, c, i as int);
            }
            return Some(i);
        }
        i += 1;
    }
    proof {
        lemma_bal_lookup_none(rows@, m, o, c);
    }
    None
}

/// Read the balance under a key; a missing row reads as zero.
pub fn bal_get(rows: &Vec<BalanceRow>, m: u64, o: u64, c: u32) -> (amt: u32)
    ensures
        amt == bal_amount(rows@, m, o, c),
{
    match bal_find(rows, m, o, c) {
        Some(i) => rows[i].amount,
        None => 0,
    }
}

/// Write `amt` under a key, refreshing the row's retention timer.
pub fn bal_set(rows: &mut Vec<BalanceRow>, m: u64, o: u64, c: u32, amt: u32)
    ensures
        final(rows)@ == bal_upsert(old(rows)@, m, o, c, amt),
{
    let row = BalanceRow { miner: m, owner: o, color: c, amount: amt, retention: MAX_RETENTION };
    match bal_find(rows, m, o, c) {
        Some(i) => {
            proof {
                lemma_bal_upsert_is_update(rows@, m, o, c, amt, i as int);
            }
            let elem = &mut rows[i];
            *elem = row;
        },
        None => {
            proof {
                lemma_bal_upsert_is_push(rows@, m, o, c, amt);
            }
            rows.push(row);
        },
    }
}

/// Copy the ledger rows, so that a call can stage its writes and discard
/// them wholesale if a later entry fails.
pub fn bal_copy(rows: &Vec<BalanceRow>) -> (out: Vec<BalanceRow>)
    ensures
        out@ == rows@,
{
    let mut out: Vec<BalanceRow> = Vec::new();
    let mut i: usize = 0;
    while i < rows.len()
        invariant
            i <= rows@.len(),
            out@ =~= rows@.take(i as int),
        decreases rows@.len() - i,
    {
        out.push(rows[i]);
        i += 1;
    }
    proof {
        assert(rows@.take(rows@.len() as int) =~= rows@);
    }
    out
}

} // verus!
