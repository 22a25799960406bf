//! Compositions: the insertion-ordered nested mapping of miner -> color ->
//! pixel-index list that fully determines a glyph's visual content, with the
//! merge logic used when crafting commits new colors into a draft.

use vstd::prelude::*;
use crate::types::{ColorIndexes, ColorIndexesV, MinerColors, MinerColorsV};

verus! {

/// The first (color, indices) entry for `c`, if any.
pub open spec fn colors_lookup(colors: Seq<ColorIndexesV>, c: u32) -> Option<ColorIndexesV>
    decreases colors.len(),
{
    if colors.len() == 0 {
        None
    } else if colors[0].color == c {
        Some(colors[0])
    } else {
        colors_lookup(colors.drop_first(), c)
    }
}

/// The first entry for miner `m`, if any.
pub open spec fn comp_lookup(comp: Seq<MinerColorsV>, m: u64) -> Option<MinerColorsV>
    decreases comp.len(),
{
    if comp.len() == 0 {
        None
    } else if comp[0].miner == m {
        Some(comp[0])
    } else {
        comp_lookup(comp.drop_first(), m)
    }
}

/// No two entries share a color.
pub open spec fn colors_unique(colors: Seq<ColorIndexesV>) -> bool {
    forall|i: int, j: int|
        0 <= i < j < colors.len() ==> (#[trigger] colors[i]).color != (#[trigger] colors[j]).color
}

/// No two entries share a miner.
pub open spec fn comp_unique(comp: Seq<MinerColorsV>) -> bool {
    forall|i: int, j: int|
        0 <= i < j < comp.len() ==> (#[trigger] comp[i]).miner != (#[trigger] comp[j]).miner
}

/// A well-formed composition: distinct miners, and distinct colors per miner.
pub open spec fn wf_comp(comp: Seq<MinerColorsV>) -> bool {
    comp_unique(comp) && (forall|i: int|
        0 <= i < comp.len() ==> colors_unique((#[trigger] comp[i]).colors))
}

/// Pixel indices committed for color `c` in one miner's entries.
pub open spec fn colors_count(colors: Seq<ColorIndexesV>, c: u32) -> int
    decreases colors.len(),
{
    if colors.len() == 0 {
        0
    } else {
        (if colors[0].color == c {
            colors[0].indexes.len() as int
        } else {
            0
        }) + colors_count(colors.drop_first(), c)
    }
}

/// Pixel indices committed for (miner `m`, color `c`) across a composition.
pub open spec fn comp_count(comp: Seq<MinerColorsV>, m: u64, c: u32) -> int
    decreases comp.len(),
{
    if comp.len() == 0 {
        0
    } else {
        (if comp[0].miner == m {
            colors_count(comp[0].colors, c)
        } else {
            0
        }) + comp_count(comp.drop_first(), m, c)
    }
}

/// The number of (miner, color) entries: what the scrape batch cap counts.
pub open spec fn entry_count(comp: Seq<MinerColorsV>) -> int
    decreases comp.len(),
{
    if comp.len() == 0 {
        0
    } else {
        comp[0].colors.len() + entry_count(comp.drop_first())
    }
}

/// A structural size measure: miners plus their color entries.
pub open spec fn comp_size(comp: Seq<MinerColorsV>) -> int
    decreases comp.len(),
{
    if comp.len() == 0 {
        0
    } else {
        1 + comp[0].colors.len() + comp_size(comp.drop_first())
    }
}

/// Merge one incoming (color, indices) entry into a miner's color list:
/// append the indices to the first entry with that color, or push a new one.
pub open spec fn colors_merge_one(base: Seq<ColorIndexesV>, ci: ColorIndexesV) -> Seq<
    ColorIndexesV,
>
    decreases base.len(),
{
    if base.len() == 0 {
        seq![ci]
    } else if base[0].color == ci.color {
        seq![ColorIndexesV { color: ci.color, indexes: base[0].indexes + ci.indexes }]
            + base.drop_first()
    } else {
        seq![base[0]] + colors_merge_one(base.drop_first(), ci)
    }
}

/// Merge an incoming color list entry by entry, in input order.
pub open spec fn colors_merge(base: Seq<ColorIndexesV>, inc: Seq<ColorIndexesV>) -> Seq<
    ColorIndexesV,
>
    decreases inc.len(),
{
    if inc.len() == 0 {
        base
    } else {
        colors_merge(colors_merge_one(base, inc[0]), inc.drop_first())
    }
}

/// Merge one incoming miner entry: a miner not yet present adopts its entire
/// incoming color list in one step; a present miner merges per color.
pub open spec fn comp_merge_one(base: Seq<MinerColorsV>, mc: MinerColorsV) -> Seq<MinerColorsV>
    decreases base.len(),
{
    if base.len() == 0 {
        seq![mc]
    } else if base[0].miner == mc.miner {
        seq![MinerColorsV { miner: mc.miner, colors: colors_merge(base[0].colors, mc.colors) }]
            + base.drop_first()
    } else {
        seq![base[0]] + comp_merge_one(base.drop_first(), mc)
    }
}

/// Merge an incoming composition miner by miner, in input order.  An
/// incoming miner entry with no color entries commits nothing: the merge
/// acts per (miner, color, indices) triple, so such an entry is skipped
/// outright, never adopted.
pub open spec fn comp_merge(base: Seq<MinerColorsV>, inc: Seq<MinerColorsV>) -> Seq<MinerColorsV>
    decreases inc.len(),
{
    if inc.len() == 0 {
        base
    } else if inc[0].colors.len() == 0 {
        comp_merge(base, inc.drop_first())
    } else {
        comp_merge(comp_merge_one(base, inc[0]), inc.drop_first())
    }
}

/// The first match at index `j` is what the color lookup returns.
pub proof fn lemma_colors_lookup_at(colors: Seq<ColorIndexesV>, c: u32, j: int)
    requires
        0 <= j < colors.len(),
        colors[j].color == c,
        forall|k: int| 0 <= k < j ==> (#[trigger] colors[k]).color != c,
    ensures
        colors_lookup(colors, c) == Some(colors[j]),
    decreases j,
{
    if j > 0 {
        lemma_colors_lookup_at(colors.drop_first(), c, j - 1);
    }
}

/// A color with no entry looks up to `None`.
pub proof fn lemma_colors_lookup_none(colors: Seq<ColorIndexesV>, c: u32)
    requires
        forall|k: int| 0 <= k < colors.len() ==> (#[trigger] colors[k]).color != c,
    ensures
        colors_lookup(colors, c) is None,
    decreases colors.len(),
{
    if colors.len() > 0 {
        lemma_colors_lookup_none(colors.drop_first(), c);
    }
}

/// The first match at index `i` is what the miner lookup returns.
pub proof fn lemma_comp_lookup_at(comp: Seq<MinerColorsV>, m: u64, i: int)
    requires
        0 <= i < comp.len(),
        comp[i].miner == m,
        forall|k: int| 0 <= k < i ==> (#[trigger] comp[k]).miner != m,
    ensures
        comp_lookup(comp, m) == Some(comp[i]),
    decreases i,
{
    if i > 0 {
        lemma_comp_lookup_at(comp.drop_first(), m, i - 1);
    }
}

/// A miner with no entry looks up to `None`.
pub proof fn lemma_comp_lookup_none(comp: Seq<MinerColorsV>, m: u64)
    requires
        forall|k: int| 0 <= k < comp.len() ==> (#[trigger] comp[k]).miner != m,
    ensures
        comp_lookup(comp, m) is None,
    decreases comp.len(),
{
    if comp.len() > 0 {
        lemma_comp_lookup_none(comp.drop_first(), m);
    }
}

/// With the first match at index `j`, a one-color merge is an update.
pub proof fn lemma_colors_merge_one_is_update(base: Seq<ColorIndexesV>, ci: ColorIndexesV, j: int)
    requires
        0 <= j < base.len(),
        base[j].color == ci.color,
        forall|k: int| 0 <= k < j ==> (#[trigger] base[k]).color != ci.color,
    ensures
        colors_merge_one(base, ci) =~= base.update(
            j,
            ColorIndexesV { color: ci.color, indexes: base[j].indexes + ci.indexes },
        ),
    decreases j,
{
    if j == 0 {
    } else {
        lemma_colors_merge_one_is_update(base.drop_first(), ci, j - 1);
        assert(base.drop_first().update(
            j - 1,
            ColorIndexesV { color: ci.color, indexes: base[j].indexes + ci.indexes },
        ) =~= base.update(
            j,
            ColorIndexesV { color: ci.color, indexes: base[j].indexes + ci.indexes },
        ).drop_first());
    }
}

/// With no match, a one-color merge is a push.
pub proof fn lemma_colors_merge_one_is_push(base: Seq<ColorIndexesV>, ci: ColorIndexesV)
    requires
        forall|k: int| 0 <= k < base.len() ==> (#[trigger] base[k]).color != ci.color,
    ensures
        colors_merge_one(base, ci) =~= base.push(ci),
    decreases base.len(),
{
    if base.len() > 0 {
        lemma_colors_merge_one_is_push(base.drop_first(), ci);
        assert(base.drop_first().push(ci) =~= base.push(ci).drop_first());
    }
}

/// A one-color merge adds exactly the incoming indices to its color's count.
pub proof fn lemma_colors_merge_one_count(base: Seq<ColorIndexesV>, ci: ColorIndexesV)
    ensures
        forall|c2: u32|
            #[trigger] colors_count(colors_merge_one(base, ci), c2) == colors_count(base, c2) + (
            if ci.color == c2 {
                ci.indexes.len() as int
            } else {
                0
            }),
    decreases base.len(),
{
    let up = colors_merge_one(base, ci);
    if base.len() == 0 {
        assert forall|c2: u32| true implies #[trigger] colors_count(up, c2) == colors_count(
            base,
            c2,
        ) + (if ci.color == c2 {
            ci.indexes.len() as int
        } else {
            0
        }) by {
            assert(up.drop_first() =~= Seq::<ColorIndexesV>::empty());
            assert(colors_count(up, c2) == (if up[0].color == c2 {
                up[0].indexes.len() as int
            } else {
                0
            }) + colors_count(up.drop_first(), c2));
        }
    } else if base[0].color == ci.color {
        assert forall|c2: u32| true implies #[trigger] colors_count(up, c2) == colors_count(
            base,
            c2,
        ) + (if ci.color == c2 {
            ci.indexes.len() as int
        } else {
            0
        }) by {
            assert(up.drop_first() =~= base.drop_first());
            assert(colors_count(up, c2) == (if up[0].color == c2 {
                up[0].indexes.len() as int
            } else {
                0
            }) + colors_count(up.drop_first(), c2));
            assert(colors_count(base, c2) == (if base[0].color == c2 {
                base[0].indexes.len() as int
            } else {
                0
            }) + colors_count(base.drop_first(), c2));
        }
    } else {
        lemma_colors_merge_one_count(base.drop_first(), ci);
        assert forall|c2: u32| true implies #[trigger] colors_count(up, c2) == colors_count(
            base,
            c2,
        ) + (if ci.color == c2 {
            ci.indexes.len() as int
        } else {
            0
        }) by {
            assert(up[0] == base[0]);
            assert(up.drop_first() =~= colors_merge_one(base.drop_first(), ci));
            assert(colors_count(up, c2) == (if up[0].color == c2 {
                up[0].indexes.len() as int
            } else {
                0
            }) + colors_count(up.drop_first(), c2));
            assert(colors_count(base, c2) == (if base[0].color == c2 {
                base[0].indexes.len() as int
            } else {
                0
            }) + colors_count(base.drop_first(), c2));
        }
    }
}

/// Merging color lists adds their counts, color by color.
pub proof fn lemma_colors_merge_count(base: Seq<ColorIndexesV>, inc: Seq<ColorIndexesV>)
    ensures
        forall|c2: u32|
            #[trigger] colors_count(colors_merge(base, inc), c2) == colors_count(base, c2)
                + colors_count(inc, c2),
    decreases inc.len(),
{
    if inc.len() > 0 {
        lemma_colors_merge_one_count(base, inc[0]);
        lemma_colors_merge_count(colors_merge_one(base, inc[0]), inc.drop_first());
        assert forall|c2: u32| true implies #[trigger] colors_count(colors_merge(base, inc), c2)
            == colors_count(base, c2) + colors_count(inc, c2) by {
            assert(colors_merge(base, inc) == colors_merge(
                colors_merge_one(base, inc[0]),
                inc.drop_first(),
            ));
            assert(colors_count(
                colors_merge(colors_merge_one(base, inc[0]), inc.drop_first()),
                c2,
            ) == colors_count(colors_merge_one(base, inc[0]), c2) + colors_count(
                inc.drop_first(),
                c2,
            ));
            assert(colors_count(colors_merge_one(base, inc[0]), c2) == colors_count(base, c2) + (
            if inc[0].color == c2 {
                inc[0].indexes.len() as int
            } else {
                0
            }));
            assert(colors_count(inc, c2) == (if inc[0].color == c2 {
                inc[0].indexes.len() as int
            } else {
                0
            }) + colors_count(inc.drop_first(), c2));
        }
    }
}

/// Wherever a color has some entry, it has a first entry.
pub proof fn lemma_colors_first_match(base: Seq<ColorIndexesV>, c: u32, j0: int)
    requires
        0 <= j0 < base.len(),
        base[j0].color == c,
    ensures
        exists|j: int|
            0 <= j < base.len() && (#[trigger] base[j]).color == c && (forall|k: int|
                0 <= k < j ==> (#[trigger] base[k]).color != c),
    decreases j0,
{
    if forall|k: int| 0 <= k < j0 ==> (#[trigger] base[k]).color != c {
        assert(0 <= j0 < base.len() && base[j0].color == c && (forall|k: int|
            0 <= k < j0 ==> (#[trigger] base[k]).color != c));
    } else {
        let k0 = choose|k: int| 0 <= k < j0 && (#[trigger] base[k]).color == c;
        lemma_colors_first_match(base, c, k0);
    }
}

/// Wherever a miner has some entry, it has a first entry.
pub proof fn lemma_comp_first_match(base: Seq<MinerColorsV>, m: u64, i0: int)
    requires
        0 <= i0 < base.len(),
        base[i0].miner == m,
    ensures
        exists|i: int|
            0 <= i < base.len() && (#[trigger] base[i]).miner == m && (forall|k: int|
                0 <= k < i ==> (#[trigger] base[k]).miner != m),
    decreases i0,
{
    if forall|k: int| 0 <= k < i0 ==> (#[trigger] base[k]).miner != m {
        assert(0 <= i0 < base.len() && base[i0].miner == m && (forall|k: int|
            0 <= k < i0 ==> (#[trigger] base[k]).miner != m));
    } else {
        let k0 = choose|k: int| 0 <= k < i0 && (#[trigger] base[k]).miner == m;
        lemma_comp_first_match(base, m, k0);
    }
}

/// A one-color merge keeps colors pairwise distinct.
pub proof fn lemma_colors_merge_one_unique(base: Seq<ColorIndexesV>, ci: ColorIndexesV)
    requires
        colors_unique(base),
    ensures
        colors_unique(colors_merge_one(base, ci)),
{
    if exists|j: int| 0 <= j < base.len() && (#[trigger] base[j]).color == ci.color {
        let j0 = choose|j: int| 0 <= j < base.len() && (#[trigger] base[j]).color == ci.color;
        lemma_colors_first_match(base, ci.color, j0);
        let j = choose|j: int|
            0 <= j < base.len() && (#[trigger] base[j]).color == ci.color && (forall|k: int|
                0 <= k < j ==> (#[trigger] base[k]).color != ci.color);
        lemma_colors_merge_one_is_update(base, ci, j);
    } else {
        lemma_colors_merge_one_is_push(base, ci);
    }
}

/// Merging whole color lists keeps colors pairwise distinct.
pub proof fn lemma_colors_merge_unique(base: Seq<ColorIndexesV>, inc: Seq<ColorIndexesV>)
    requires
        colors_unique(base),
    ensures
        colors_unique(colors_merge(base, inc)),
    decreases inc.len(),
{
    if inc.len() > 0 {
        lemma_colors_merge_one_unique(base, inc[0]);
        lemma_colors_merge_unique(colors_merge_one(base, inc[0]), inc.drop_first());
    }
}

/// With the first match at index `i`, a one-miner merge is an update.
pub proof fn lemma_comp_merge_one_is_update(base: Seq<MinerColorsV>, mc: MinerColorsV, i: int)
    requires
        0 <= i < base.len(),
        base[i].miner == mc.miner,
        forall|k: int| 0 <= k < i ==> (#[trigger] base[k]).miner != mc.miner,
    ensures
        comp_merge_one(base, mc) =~= base.update(
            i,
            MinerColorsV { miner: mc.miner, colors: colors_merge(base[i].colors, mc.colors) },
        ),
    decreases i,
{
    if i == 0 {
    } else {
        lemma_comp_merge_one_is_update(base.drop_first(), mc, i - 1);
        assert(base.drop_first().update(
            i - 1,
            MinerColorsV { miner: mc.miner, colors: colors_merge(base[i].colors, mc.colors) },
        ) =~= base.update(
            i,
            MinerColorsV { miner: mc.miner, colors: colors_merge(base[i].colors, mc.colors) },
        ).drop_first());
    }
}

/// With no match, a one-miner merge is a push: the whole incoming color list
/// is adopted in one assignment.
pub proof fn lemma_comp_merge_one_is_push(base: Seq<MinerColorsV>, mc: MinerColorsV)
    requires
        forall|k: int| 0 <= k < base.len() ==> (#[trigger] base[k]).miner != mc.miner,
    ensures
        comp_merge_one(base, mc) =~= base.push(mc),
    decreases base.len(),
{
    if base.len() > 0 {
        lemma_comp_merge_one_is_push(base.drop_first(), mc);
        assert(base.drop_first().push(mc) =~= base.push(mc).drop_first());
    }
}

/// A one-miner merge adds exactly the incoming counts, key by key.
pub proof fn lemma_comp_merge_one_count(base: Seq<MinerColorsV>, mc: MinerColorsV)
    ensures
        forall|m2: u64, c2: u32|
            #[trigger] comp_count(comp_merge_one(base, mc), m2, c2) == comp_count(base, m2, c2) + (
            if mc.miner == m2 {
                colors_count(mc.colors, c2)
            } else {
                0
            }),
    decreases base.len(),
{
    let up = comp_merge_one(base, mc);
    if base.len() == 0 {
        assert forall|m2: u64, c2: u32| true implies #[trigger] comp_count(up, m2, c2)
            == comp_count(base, m2, c2) + (if mc.miner == m2 {
            colors_count(mc.colors, c2)
        } else {
            0
        }) by {
            assert(up.drop_first() =~= Seq::<MinerColorsV>::empty());
            assert(comp_count(up, m2, c2) == (if up[0].miner == m2 {
                colors_count(up[0].colors, c2)
            } else {
                0
            }) + comp_count(up.drop_first(), m2, c2));
        }
    } else if base[0].miner == mc.miner {
        lemma_colors_merge_count(base[0].colors, mc.colors);
        assert forall|m2: u64, c2: u32| true implies #[trigger] comp_count(up, m2, c2)
            == comp_count(base, m2, c2) + (if mc.miner == m2 {
            colors_count(mc.colors, c2)
        } else {
            0
        }) by {
            assert(up.drop_first() =~= base.drop_first());
            assert(comp_count(up, m2, c2) == (if up[0].miner == m2 {
                colors_count(up[0].colors, c2)
            } else {
                0
            }) + comp_count(up.drop_first(), m2, c2));
            assert(comp_count(base, m2, c2) == (if base[0].miner == m2 {
                colors_count(base[0].colors, c2)
            } else {
                0
            }) + comp_count(base.drop_first(), m2, c2));
        }
    } else {
        lemma_comp_merge_one_count(base.drop_first(), mc);
        assert forall|m2: u64, c2: u32| true implies #[trigger] comp_count(up, m2, c2)
            == comp_count(base, m2, c2) + (if mc.miner == m2 {
            colors_count(mc.colors, c2)
        } else {
            0
        }) by {
            assert(up[0] == base[0]);
            assert(up.drop_first() =~= comp_merge_one(base.drop_first(), mc));
            assert(comp_count(up, m2, c2) == (if up[0].miner == m2 {
                colors_count(up[0].colors, c2)
            } else {
                0
            }) + comp_count(up.drop_first(), m2, c2));
            assert(comp_count(base, m2, c2) == (if base[0].miner == m2 {
                colors_count(base[0].colors, c2)
            } else {
                0
            }) + comp_count(base.drop_first(), m2, c2));
        }
    }
}

/// Merging compositions adds their counts, key by key: no color unit is
/// created or lost by a merge.
pub proof fn lemma_comp_merge_count(base: Seq<MinerColorsV>, inc: Seq<MinerColorsV>)
    ensures
        forall|m2: u64, c2: u32|
            #[trigger] comp_count(comp_merge(base, inc), m2, c2) == comp_count(base, m2, c2)
                + comp_count(inc, m2, c2),
    decreases inc.len(),
{
    if inc.len() > 0 && inc[0].colors.len() == 0 {
        lemma_comp_merge_count(base, inc.drop_first());
        assert forall|m2: u64, c2: u32| true implies #[trigger] comp_count(
            comp_merge(base, inc),
            m2,
            c2,
        ) == comp_count(base, m2, c2) + comp_count(inc, m2, c2) by {
            assert(comp_merge(base, inc) == comp_merge(base, inc.drop_first()));
            assert(comp_count(comp_merge(base, inc.drop_first()), m2, c2) == comp_count(
                base,
                m2,
                c2,
            ) + comp_count(inc.drop_first(), m2, c2));
            assert(colors_count(inc[0].colors, c2) == 0);
            assert(comp_count(inc, m2, c2) == (if inc[0].miner == m2 {
                colors_count(inc[0].colors, c2)
            } else {
                0
            }) + comp_count(inc.drop_first(), m2, c2));
        }
    } else if inc.len() > 0 {
        lemma_comp_merge_one_count(base, inc[0]);
        lemma_comp_merge_count(comp_merge_one(base, inc[0]), inc.drop_first());
        assert forall|m2: u64, c2: u32| true implies #[trigger] comp_count(
            comp_merge(base, inc),
            m2,
            c2,
        ) == comp_count(base, m2, c2) + comp_count(inc, m2, c2) by {
            assert(comp_merge(base, inc) == comp_merge(
                comp_merge_one(base, inc[0]),
                inc.drop_first(),
            ));
            assert(comp_count(comp_merge(comp_merge_one(base, inc[0]), inc.drop_first()), m2, c2)
                == comp_count(comp_merge_one(base, inc[0]), m2, c2) + comp_count(
                inc.drop_first(),
                m2,
                c2,
            ));
            assert(comp_count(comp_merge_one(base, inc[0]), m2, c2) == comp_count(base, m2, c2) + (
            if inc[0].miner == m2 {
                colors_count(inc[0].colors, c2)
            } else {
                0
            }));
            assert(comp_count(inc, m2, c2) == (if inc[0].miner == m2 {
                colors_count(inc[0].colors, c2)
            } else {
                0
            }) + comp_count(inc.drop_first(), m2, c2));
        }
    }
}

/// A one-miner merge of a well-formed entry keeps the composition well formed.
pub proof fn lemma_comp_merge_one_wf(base: Seq<MinerColorsV>, mc: MinerColorsV)
    requires
        wf_comp(base),
        colors_unique(mc.colors),
    ensures
        wf_comp(comp_merge_one(base, mc)),
{
    if exists|i: int| 0 <= i < base.len() && (#[trigger] base[i]).miner == mc.miner {
        let i0 = choose|i: int| 0 <= i < base.len() && (#[trigger] base[i]).miner == mc.miner;
        lemma_comp_first_match(base, mc.miner, i0);
        let i = choose|i: int|
            0 <= i < base.len() && (#[trigger] base[i]).miner == mc.miner && (forall|k: int|
                0 <= k < i ==> (#[trigger] base[k]).miner != mc.miner);
        lemma_comp_merge_one_is_update(base, mc, i);
        lemma_colors_merge_unique(base[i].colors, mc.colors);
    } else {
        lemma_comp_merge_one_is_push(base, mc);
    }
}

/// Merging well-formed compositions yields a well-formed composition.
pub proof fn lemma_comp_merge_wf(base: Seq<MinerColorsV>, inc: Seq<MinerColorsV>)
    requires
        wf_comp(base),
        forall|i: int| 0 <= i < inc.len() ==> colors_unique((#[trigger] inc[i]).colors),
    ensures
        wf_comp(comp_merge(base, inc)),
    decreases inc.len(),
{
    if inc.len() > 0 && inc[0].colors.len() == 0 {
        lemma_comp_merge_wf(base, inc.drop_first());
    } else if inc.len() > 0 {
        lemma_comp_merge_one_wf(base, inc[0]);
        lemma_comp_merge_wf(comp_merge_one(base, inc[0]), inc.drop_first());
    }
}

/// Find the index of the first entry for miner `m`.
pub fn comp_find(comp: &Vec<MinerColors>, m: u64) -> (r: Option<usize>)
    ensures
        match r {
            Some(i) => i < comp.deep_view().len() && comp.deep_view()[i as int].miner == m && (
            forall|k: int| 0 <= k < i ==> (#[trigger] comp.deep_view()[k]).miner != m)
                && comp_lookup(comp.deep_view(), m) == Some(comp.deep_view()[i as int]),
            None => comp_lookup(comp.deep_view(), m) is None && (forall|k: int|
                0 <= k < comp.deep_view().len() ==> (#[trigger] comp.deep_view()[k]).miner != m),
        },
{
    let mut i: usize = 0;
    while i < comp.len()
        invariant
            i <= comp@.len(),
            forall|k: int| 0 <= k < i ==> (#[trigger] comp.deep_view()[k]).miner != m,
        decreases comp@.len() - i,
    {
        if comp[i].miner == m {
            proof {
                assert(comp.deep_view()[i as int].miner == m);
                lemma_comp_lookup_at(comp.deep_view(), m, i as int);
            }
            return Some(i);
        }
        proof {
            assert(comp.deep_view()[i as int].miner != m);
        }
        i += 1;
    }
    proof {
        lemma_comp_lookup_none(comp.deep_view(), m);
    }
    None
}

/// Find the index of the first entry for color `c`.
pub fn colors_find(colors: &Vec<ColorIndexes>, c: u32) -> (r: Option<usize>)
    ensures
        match r {
            Some(j) => j < colors.deep_view().len() && colors.deep_view()[j as int].color == c && (
            forall|k: int| 0 <= k < j ==> (#[trigger] colors.deep_view()[k]).color != c)
                && colors_lookup(colors.deep_view(), c) == Some(colors.deep_view()[j as int]),
            None => colors_lookup(colors.deep_view(), c) is None && (forall|k: int|
                0 <= k < colors.deep_view().len() ==> (#[trigger] colors.deep_view()[k]).color
                    != c),
        },
{
    let mut j: usize = 0;
    while j < colors.len()
        invariant
            j <= colors@.len(),
            forall|k: int| 0 <= k < j ==> (#[trigger] colors.deep_view()[k]).color != c,
        decreases colors@.len() - j,
    {
        if colors[j].color == c {
            proof {
                assert(colors.deep_view()[j as int].color == c);
                lemma_colors_lookup_at(colors.deep_view(), c, j as int);
            }
            return Some(j);
        }
        proof {
            assert(colors.deep_view()[j as int].color != c);
        }
        j += 1;
    }
    proof {
        lemma_colors_lookup_none(colors.deep_view(), c);
    }
    None
}

/// Copy a pixel-index list.
pub fn clone_indexes(v: &Vec<u32>) -> (out: Vec<u32>)
    ensures
        out@ == v@,
{
    let mut out: Vec<u32> = Vec::new();
    let mut i: usize = 0;
    while i < v.len()
        invariant
            i <= v@.len(),
            out@ =~= v@.take(i as int),
        decreases v@.len() - i,
    {
        out.push(v[i]);
        i += 1;
    }
    proof {
        assert(v@.take(v@.len() as int) =~= v@);
    }
    out
}

/// Copy one (color, indices) entry.
pub fn clone_color_entry(e: &ColorIndexes) -> (out: ColorIndexes)
    ensures
        out.deep_view() == e.deep_view(),
{
    ColorIndexes { color: e.color, indexes: clone_indexes(&e.indexes) }
}

/// Copy a color list.
pub fn clone_colors(v: &Vec<ColorIndexes>) -> (out: Vec<ColorIndexes>)
    ensures
        out.deep_view() == v.deep_view(),
{
    let mut out: Vec<ColorIndexes> = Vec::new();
    let mut i: usize = 0;
    while i < v.len()
        invariant
            i <= v@.len(),
            out.deep_view() =~= v.deep_view().take(i as int),
        decreases v@.len() - i,
    {
        let ghost pd = out.deep_view();
        out.push(clone_color_entry(&v[i]));
        proof {
            assert(out.deep_view() =~= pd.push(v.deep_view()[i as int]));
            assert(v.deep_view().take(i as int + 1) =~= v.deep_view().take(i as int).push(
                v.deep_view()[i as int],
            ));
        }
        i += 1;
    }
    proof {
        assert(v.deep_view().take(v.deep_view().len() as int) =~= v.deep_view());
        assert(out.deep_view() =~= v.deep_view());
    }
    out
}

/// Copy one miner's entry.
pub fn clone_miner_entry(e: &MinerColors) -> (out: MinerColors)
    ensures
        out.deep_view() == e.deep_view(),
{
    MinerColors { miner: e.miner, colors: clone_colors(&e.colors) }
}

/// Copy a whole composition.
pub fn clone_comp(v: &Vec<MinerColors>) -> (out: Vec<MinerColors>)
    ensures
        out.deep_view() == v.deep_view(),
{
    let mut out: Vec<MinerColors> = Vec::new();
    let mut i: usize = 0;
    while i < v.len()
        invariant
            i <= v@.len(),
            out.deep_view() =~= v.deep_view().take(i as int),
        decreases v@.len() - i,
    {
        let ghost pd = out.deep_view();
        out.push(clone_miner_entry(&v[i]));
        proof {
            assert(out.deep_view() =~= pd.push(v.deep_view()[i as int]));
            assert(v.deep_view().take(i as int + 1) =~= v.deep_view().take(i as int).push(
                v.deep_view()[i as int],
            ));
        }
        i += 1;
    }
    proof {
        assert(v.deep_view().take(v.deep_view().len() as int) =~= v.deep_view());
        assert(out.deep_view() =~= v.deep_view());
    }
    out
}

/// Merge an incoming composition into a working one, miner by miner and
/// color by color, in input order.
pub fn comp_merge_into(base: &mut Vec<MinerColors>, inc: &Vec<MinerColors>)
    ensures
        final(base).deep_view() == comp_merge(old(base).deep_view(), inc.deep_view()),
{
    let ghost base0 = old(base).deep_view();
    let ghost incv = inc.deep_view();
    let mut i: usize = 0;
    proof {
        assert(incv.skip(0) =~= incv);
    }
    while i < inc.len()
        invariant
            i <= inc@.len(),
            incv == inc.deep_view(),
            comp_merge(base0, incv) == comp_merge(base.deep_view(), incv.skip(i as int)),
        decreases inc@.len() - i,
    {
        let ghost cur = base.deep_view();
        let ghost mcv = incv[i as int];
        proof {
            assert(mcv == inc@[i as int].deep_view());
            assert(incv.skip(i as int)[0] == mcv);
            assert(incv.skip(i as int).drop_first() =~= incv.skip(i as int + 1));
        }
        let mc = &inc[i];
        if mc.colors.len() == 0 {
            // An incoming miner entry with no colors commits nothing.
            proof {
                assert(mcv.colors.len() == 0);
                assert(comp_merge(cur, incv.skip(i as int)) == comp_merge(
                    cur,
                    incv.skip(i as int + 1),
                ));
            }
            i += 1;
            continue ;
        }
        proof {
            assert(mcv.colors.len() > 0);
            assert(comp_merge(cur, incv.skip(i as int)) == comp_merge(
                comp_merge_one(cur, mcv),
                incv.skip(i as int + 1),
            ));
        }
        match comp_find(base, mc.miner) {
            None => {
                proof {
                    lemma_comp_merge_one_is_push(cur, mcv);
                }
                base.push(clone_miner_entry(mc));
                proof {
                    assert(base.deep_view() =~= cur.push(mcv));
                }
            },
            Some(bi) => {
                let ghost bc0 = cur[bi as int].colors;
                proof {
                    assert(cur[bi as int].miner == mcv.miner);
                    assert(cur[bi as int] == (MinerColorsV {
                        miner: mcv.miner,
                        colors: cur[bi as int].colors,
                    }));
                    assert(base.deep_view() =~= cur.update(bi as int, cur[bi as int]));
                    assert(mcv.colors.skip(0) =~= mcv.colors);
                }
                let mut j: usize = 0;
                while j < mc.colors.len()
                    invariant
                        j <= mc.colors@.len(),
                        i < inc@.len(),
                        *mc == inc@[i as int],
                        mcv == inc@[i as int].deep_view(),
                        bi < cur.len(),
                        bi < base.deep_view().len(),
                        base.deep_view() =~= cur.update(
                            bi as int,
                            MinerColorsV {
                                miner: mcv.miner,
                                colors: base.deep_view()[bi as int].colors,
                            },
                        ),
                        colors_merge(bc0, mcv.colors) == colors_merge(
                            base.deep_view()[bi as int].colors,
                            mcv.colors.skip(j as int),
                        ),
                    decreases mc.colors@.len() - j,
                {
                    let ghost curc = base.deep_view()[bi as int].colors;
                    let ghost civ = mcv.colors[j as int];
                    proof {
                        assert(civ == mc.colors@[j as int].deep_view());
                        assert(mcv.colors.skip(j as int)[0] == civ);
                        assert(mcv.colors.skip(j as int).drop_first() =~= mcv.colors.skip(
                            j as int + 1,
                        ));
                        assert(colors_merge(curc, mcv.colors.skip(j as int)) == colors_merge(
                            colors_merge_one(curc, civ),
                            mcv.colors.skip(j as int + 1),
                        ));
                    }
                    let ci = &mc.colors[j];
                    let ghost prev = base.deep_view();
                    let found = colors_find(&base[bi].colors, ci.color);
                    match found {
                        None => {
                            proof {
                                lemma_colors_merge_one_is_push(curc, civ);
                            }
                            let entry = clone_color_entry(ci);
                            let el = &mut base[bi];
                            el.colors.push(entry);
                            proof {
                                assert(base.deep_view()[bi as int].colors =~~= curc.push(civ));
                                assert(base.deep_view()[bi as int].colors =~~= colors_merge_one(
                                    curc,
                                    civ,
                                ));
                                assert(base.deep_view() =~~= prev.update(
                                    bi as int,
                                    MinerColorsV {
                                        miner: mcv.miner,
                                        colors: colors_merge_one(curc, civ),
                                    },
                                ));
                            }
                        },
                        Some(cj) => {
                            proof {
                                lemma_colors_merge_one_is_update(curc, civ, cj as int);
                            }
                            let ghost prev_vec = base@;
                            let el = &mut base[bi];
                            let cel = &mut el.colors[cj];
                            cel.indexes.extend_from_slice(ci.indexes.as_slice());
                            proof {
                                assert(base@[bi as int].colors@[cj as int].indexes@ == curc[
                                    cj as int
                                ].indexes + civ.indexes);
                                assert(base@[bi as int].colors@[cj as int].color == civ.color);
                                assert(base@[bi as int].colors@.len() == curc.len());
                                assert forall|k: int| 0 <= k < curc.len() && k != cj implies
                                    base.deep_view()[bi as int].colors[k] == curc[k] by {
                                    assert(base@[bi as int].colors@[k]
                                        == prev_vec[bi as int].colors@[k]);
                                }
                                assert(base.deep_view()[bi as int].colors =~~= curc.update(
                                    cj as int,
                                    ColorIndexesV {
                                        color: civ.color,
                                        indexes: curc[cj as int].indexes + civ.indexes,
                                    },
                                ));
                                assert(base.deep_view()[bi as int].colors =~~= colors_merge_one(
                                    curc,
                                    civ,
                                ));
                                assert(base.deep_view() =~~= prev.update(
                                    bi as int,
                                    MinerColorsV {
                                        miner: mcv.miner,
                                        colors: colors_merge_one(curc, civ),
                                    },
                                ));
                            }
                        },
                    }
                    proof {
                        assert(base.deep_view() =~~= cur.update(
                            bi as int,
                            MinerColorsV {
                                miner: mcv.miner,
                                colors: base.deep_view()[bi as int].colors,
                            },
                        ));
                    }
                    j += 1;
                }
                proof {
                    assert(mcv.colors.skip(mc.colors@.len() as int) =~= Seq::<
                        ColorIndexesV,
                    >::empty());
                    assert(colors_merge(base.deep_view()[bi as int].colors, Seq::<
                        ColorIndexesV,
                    >::empty()) == base.deep_view()[bi as int].colors);
                    lemma_comp_merge_one_is_update(cur, mcv, bi as int);
                    assert(base.deep_view() =~~= comp_merge_one(cur, mcv));
                }
            },
        }
        i += 1;
    }
    proof {
        assert(incv.skip(inc@.len() as int) =~= Seq::<MinerColorsV>::empty());
    }
}

} // verus!
