//! The canonical byte encoding of a composition: one 3-byte little-endian
//! color sample per covered pixel index, never-written slots filled white,
//! the last write to an index winning, and the width appended as 4
//! little-endian bytes.  The content hash of a glyph is the digest of this
//! encoding, so its order and padding rules are part of the design.

use vstd::prelude::*;
use crate::types::{ColorIndexesV, MinerColors, MinerColorsV};

verus! {

/// The white filler sample written to pixel slots nothing ever covered.
pub const WHITE_BYTE: u8 = 255;

/// The (index, color) writes contributed by one color entry, in index order.
pub open spec fn writes_of_color(ci: ColorIndexesV) -> Seq<(u32, u32)> {
    Seq::new(ci.indexes.len(), |k: int| (ci.indexes[k], ci.color))
}

/// The writes of one miner's color list, color entry by color entry.
pub open spec fn writes_of_colors(colors: Seq<ColorIndexesV>) -> Seq<(u32, u32)>
    decreases colors.len(),
{
    if colors.len() == 0 {
        Seq::empty()
    } else {
        writes_of_colors(colors.drop_last()) + writes_of_color(colors.last())
    }
}

/// All writes of a composition, miner by miner, in iteration order.
pub open spec fn writes_of(comp: Seq<MinerColorsV>) -> Seq<(u32, u32)>
    decreases comp.len(),
{
    if comp.len() == 0 {
        Seq::empty()
    } else {
        writes_of(comp.drop_last()) + writes_of_colors(comp.last().colors)
    }
}

/// The color of the last write to pixel index `i`, if any: later writes win.
pub open spec fn slot_color(ws: Seq<(u32, u32)>, i: int) -> Option<u32>
    decreases ws.len(),
{
    if ws.len() == 0 {
        None
    } else if ws.last().0 as int == i {
        Some(ws.last().1)
    } else {
        slot_color(ws.drop_last(), i)
    }
}

/// One past the highest written pixel index; 0 when nothing was written.
pub open spec fn coverage(ws: Seq<(u32, u32)>) -> int
    decreases ws.len(),
{
    if ws.len() == 0 {
        0
    } else {
        let rest = coverage(ws.drop_last());
        let here = ws.last().0 as int + 1;
        if here > rest {
            here
        } else {
            rest
        }
    }
}

/// Byte `k` (0, 1 or 2) of a color's 3-byte little-endian sample.
pub open spec fn le_byte(c: u32, k: int) -> u8 {
    if k == 0 {
        (c % 256) as u8
    } else if k == 1 {
        ((c / 256) % 256) as u8
    } else {
        ((c / 65536) % 256) as u8
    }
}

/// Byte `k` of the encoded pixel body.
pub open spec fn body_byte(ws: Seq<(u32, u32)>, k: int) -> u8 {
    match slot_color(ws, k / 3) {
        None => WHITE_BYTE,
        Some(c) => le_byte(c, k % 3),
    }
}

/// A width as 4 little-endian bytes.
pub open spec fn le4(w: u32) -> Seq<u8> {
    seq![
        (w % 256) as u8,
        ((w / 256) % 256) as u8,
        ((w / 65536) % 256) as u8,
        ((w / 16777216) % 256) as u8,
    ]
}

/// The encoded pixel body: 3 bytes per covered slot.
pub open spec fn encoded_body(ws: Seq<(u32, u32)>) -> Seq<u8> {
    Seq::new((3 * coverage(ws)) as nat, |k: int| body_byte(ws, k))
}

/// The full encoding: pixel body, then the width suffix.
pub open spec fn encoded(comp: Seq<MinerColorsV>, width: u32) -> Seq<u8> {
    encoded_body(writes_of(comp)) + le4(width)
}

/// Coverage is never negative.
pub proof fn lemma_coverage_nonneg(ws: Seq<(u32, u32)>)
    ensures
        coverage(ws) >= 0,
    decreases ws.len(),
{
    if ws.len() > 0 {
        lemma_coverage_nonneg(ws.drop_last());
    }
}

/// Every written index lies below the coverage.
pub proof fn lemma_coverage_bounds(ws: Seq<(u32, u32)>, t: int)
    requires
        0 <= t < ws.len(),
    ensures
        ws[t].0 as int + 1 <= coverage(ws),
    decreases ws.len(),
{
    lemma_coverage_nonneg(ws.drop_last());
    if t == ws.len() - 1 {
    } else {
        lemma_coverage_bounds(ws.drop_last(), t);
        assert(ws.drop_last()[t] == ws[t]);
    }
}

/// Coverage only grows as writes are appended.
pub proof fn lemma_coverage_monotone(ws: Seq<(u32, u32)>, t: int)
    requires
        0 <= t <= ws.len(),
    ensures
        coverage(ws.take(t)) <= coverage(ws),
    decreases ws.len() - t,
{
    if t == ws.len() {
        assert(ws.take(t) =~= ws);
    } else {
        lemma_coverage_monotone(ws, t + 1);
        assert(ws.take(t + 1).drop_last() =~= ws.take(t));
        lemma_coverage_nonneg(ws.take(t));
    }
}

/// A slot at or beyond the coverage was never written.
pub proof fn lemma_slot_none_beyond(ws: Seq<(u32, u32)>, i: int)
    requires
        i >= coverage(ws),
    ensures
        slot_color(ws, i) is None,
    decreases ws.len(),
{
    if ws.len() > 0 {
        lemma_coverage_nonneg(ws.drop_last());
        lemma_slot_none_beyond(ws.drop_last(), i);
    }
}

/// Flatten a composition into its ordered (index, color) write list.
pub fn flatten_writes(comp: &Vec<MinerColors>) -> (ws: Vec<(u32, u32)>)
    ensures
        ws@ == writes_of(comp.deep_view()),
{
    let ghost compv = comp.deep_view();
    let mut ws: Vec<(u32, u32)> = Vec::new();
    let mut i: usize = 0;
    proof {
        assert(compv.take(0) =~= Seq::<MinerColorsV>::empty());
        assert(ws@ =~= writes_of(compv.take(0)));
    }
    while i < comp.len()
        invariant
            i <= comp@.len(),
            compv == comp.deep_view(),
            ws@ == writes_of(compv.take(i as int)),
        decreases comp@.len() - i,
    {
        let mc = &comp[i];
        let ghost mcv = compv[i as int];
        let ghost base = ws@;
        proof {
            assert(mcv == comp@[i as int].deep_view());
            assert(mcv.colors.take(0) =~= Seq::<ColorIndexesV>::empty());
            assert(ws@ =~= base + writes_of_colors(mcv.colors.take(0)));
        }
        let mut j: usize = 0;
        while j < mc.colors.len()
            invariant
                j <= mc.colors@.len(),
                i < comp@.len(),
                *mc == comp@[i as int],
                mcv == comp@[i as int].deep_view(),
                ws@ == base + writes_of_colors(mcv.colors.take(j as int)),
            decreases mc.colors@.len() - j,
        {
            let ci = &mc.colors[j];
            let ghost civ = mcv.colors[j as int];
            let ghost base2 = ws@;
            proof {
                assert(civ == mc.colors@[j as int].deep_view());
                assert(writes_of_color(civ).take(0) =~= Seq::<(u32, u32)>::empty());
                assert(ws@ =~= base2 + writes_of_color(civ).take(0));
            }
            let mut k: usize = 0;
            while k < ci.indexes.len()
                invariant
                    k <= ci.indexes@.len(),
                    i < comp@.len(),
                    j < mc.colors@.len(),
                    *mc == comp@[i as int],
                    *ci == mc.colors@[j as int],
                    civ == mc.colors@[j as int].deep_view(),
                    ws@ == base2 + writes_of_color(civ).take(k as int),
                decreases ci.indexes@.len() - k,
            {
                ws.push((ci.indexes[k], ci.color));
                proof {
                    assert(writes_of_color(civ).take(k as int + 1) =~= writes_of_color(
                        civ,
                    ).take(k as int).push((civ.indexes[k as int], civ.color)));
                    assert(ws@ =~= base2 + writes_of_color(civ).take(k as int + 1));
                }
                k += 1;
            }
            proof {
                assert(writes_of_color(civ).take(ci.indexes@.len() as int) =~= writes_of_color(
                    civ,
                ));
                assert(mcv.colors.take(j as int + 1).drop_last() =~= mcv.colors.take(j as int));
                assert(mcv.colors.take(j as int + 1).last() == civ);
                assert(writes_of_colors(mcv.colors.take(j as int + 1)) =~= writes_of_colors(
                    mcv.colors.take(j as int),
                ) + writes_of_color(civ));
                assert(ws@ =~= base + writes_of_colors(mcv.colors.take(j as int + 1)));
            }
            j += 1;
        }
        proof {
            assert(mcv.colors.take(mc.colors@.len() as int) =~= mcv.colors);
            assert(compv.take(i as int + 1).drop_last() =~= compv.take(i as int));
            assert(compv.take(i as int + 1).last() == mcv);
            assert(writes_of(compv.take(i as int + 1)) =~= writes_of(compv.take(i as int))
                + writes_of_colors(mcv.colors));
            assert(ws@ =~= writes_of(compv.take(i as int + 1)));
        }
        i += 1;
    }
    proof {
        assert(compv.take(comp@.len() as int) =~= compv);
    }
    ws
}

/// Build the encoded pixel body by replaying the writes in order.
pub fn encode_body(ws: &Vec<(u32, u32)>) -> (buf: Vec<u8>)
    requires
        3 * coverage(ws@) + 4 <= u32::MAX as int,
    ensures
        buf@.len() == 3 * coverage(ws@),
        forall|k: int| 0 <= k < buf@.len() ==> buf@[k] == body_byte(ws@, k),
{
    let ghost wsv = ws@;
    let mut buf: Vec<u8> = Vec::new();
    let mut t: usize = 0;
    proof {
        assert(wsv.take(0) =~= Seq::<(u32, u32)>::empty());
    }
    while t < ws.len()
        invariant
            t <= wsv.len(),
            wsv == ws@,
            3 * coverage(wsv) + 4 <= u32::MAX as int,
            buf@.len() == 3 * coverage(wsv.take(t as int)),
            forall|k: int| 0 <= k < buf@.len() ==> buf@[k] == body_byte(wsv.take(t as int), k),
        decreases wsv.len() - t,
    {
        let (idx, col) = ws[t];
        let ghost pre = wsv.take(t as int);
        let ghost post = wsv.take(t as int + 1);
        proof {
            assert(post.drop_last() =~= pre);
            assert(post.last() == wsv[t as int]);
            assert(wsv[t as int] == (idx, col));
            lemma_coverage_bounds(wsv, t as int);
            lemma_coverage_monotone(wsv, t as int + 1);
            lemma_coverage_nonneg(pre);
            assert(coverage(post) == (if idx as int + 1 > coverage(pre) {
                idx as int + 1
            } else {
                coverage(pre)
            }));
            assert(3 * (idx as int) + 3 <= u32::MAX as int);
        }
        let b0: u8 = (col % 256) as u8;
        let b1: u8 = ((col / 256) % 256) as u8;
        let b2: u8 = ((col / 65536) % 256) as u8;
        let p: usize = (idx as usize) * 3;
        if buf.len() <= p {
            while buf.len() < p
                invariant
                    buf@.len() <= p,
                    p == 3 * (idx as int),
                    3 * coverage(pre) <= buf@.len(),
                    forall|k: int|
                        0 <= k < 3 * coverage(pre) ==> buf@[k] == body_byte(pre, k),
                    forall|k: int| 3 * coverage(pre) <= k < buf@.len() ==> buf@[k] == WHITE_BYTE,
                decreases p - buf@.len(),
            {
                buf.push(WHITE_BYTE);
            }
            let ghost padded = buf@;
            buf.push(b0);
            buf.push(b1);
            buf.push(b2);
            proof {
                assert(coverage(pre) <= idx as int);
                assert(coverage(post) == idx as int + 1);
                assert(padded.len() == 3 * (idx as int));
                assert(buf@ =~= padded + seq![b0, b1, b2]);
                assert(buf@.len() == 3 * coverage(post));
                assert forall|k: int| 0 <= k < buf@.len() implies buf@[k] == body_byte(post, k) by {
                    let s = k / 3;
                    assert(k == 3 * s + k % 3);
                    if s == idx as int {
                        assert(slot_color(post, s) == Some(col));
                        if k % 3 == 0 {
                            assert(buf@[k] == b0);
                        } else if k % 3 == 1 {
                            assert(buf@[k] == b1);
                        } else {
                            assert(k % 3 == 2);
                            assert(buf@[k] == b2);
                        }
                    } else {
                        assert(k < padded.len());
                        assert(buf@[k] == padded[k]);
                        assert(slot_color(post, s) == slot_color(pre, s));
                        if k < 3 * coverage(pre) {
                            assert(padded[k] == body_byte(pre, k));
                        } else {
                            assert(s >= coverage(pre));
                            lemma_slot_none_beyond(pre, s);
                            assert(padded[k] == WHITE_BYTE);
                        }
                    }
                }
            }
        } else {
            proof {
                assert(3 * (idx as int) + 3 <= 3 * coverage(pre));
                assert(coverage(post) == coverage(pre));
            }
            let e0 = &mut buf[p];
            *e0 = b0;
            let e1 = &mut buf[p + 1];
            *e1 = b1;
            let e2 = &mut buf[p + 2];
            *e2 = b2;
            proof {
                assert(buf@.len() == 3 * coverage(post));
                assert forall|k: int| 0 <= k < buf@.len() implies buf@[k] == body_byte(post, k) by {
                    let s = k / 3;
                    if s == idx as int {
                        assert(slot_color(post, s) == Some(col));
                        assert(3 * (idx as int) <= k < 3 * (idx as int) + 3);
                    } else {
                        assert(slot_color(post, s) == slot_color(pre, s));
                        assert(!(3 * (idx as int) <= k < 3 * (idx as int) + 3));
                        assert(buf@[k] == body_byte(pre, k));
                    }
                }
            }
        }
        t += 1;
    }
    proof {
        assert(wsv.take(wsv.len() as int) =~= wsv);
    }
    buf
}

/// Encode a composition with its width: the pixel body, then the width as
/// 4 little-endian bytes.
pub fn encode(comp: &Vec<MinerColors>, width: u32) -> (buf: Vec<u8>)
    requires
        3 * coverage(writes_of(comp.deep_view())) + 4 <= u32::MAX as int,
    ensures
        buf@ == encoded(comp.deep_view(), width),
        buf@.len() == 3 * coverage(writes_of(comp.deep_view())) + 4,
{
    let ws = flatten_writes(comp);
    let mut buf = encode_body(&ws);
    buf.push((width % 256) as u8);
    buf.push(((width / 256) % 256) as u8);
    buf.push(((width / 65536) % 256) as u8);
    buf.push(((width / 16777216) % 256) as u8);
    proof {
        lemma_coverage_nonneg(ws@);
        assert(buf@ =~= encoded(comp.deep_view(), width));
    }
    buf
}

} // verus!
