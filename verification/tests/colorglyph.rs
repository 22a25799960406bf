use colorglyph::colors::{color_balance, colors_mine, colors_transfer};
use colorglyph::encode::encode;
use colorglyph::glyphs::{
    derive_id, glyph_get, glyph_mint, glyph_scrape, glyph_transfer, glyph_verify_ownership,
    GlyphType,
};
use colorglyph::types::{
    ColorIndexes, Error, HashId, MinerColorAmount, MinerColors, MinerOwnerColor, OfferEntry,
    Store, MAX_RETENTION,
};
use sha2::{Digest, Sha256};

const ALICE: u64 = 1;
const BOB: u64 = 2;
const CAROL: u64 = 3;

fn ci(color: u32, indexes: Vec<u32>) -> ColorIndexes {
    ColorIndexes { color, indexes }
}

fn mc(miner: u64, colors: Vec<ColorIndexes>) -> MinerColors {
    MinerColors { miner, colors }
}

/// Mine `amount` units of `color` for Alice as both miner and owner.
fn mine_simple(store: &mut Store, color: u32, amount: u32) {
    colors_mine(store, ALICE, None, &vec![(color, amount)]);
}

#[test]
fn test_mine_accumulates_and_charges() {
    let mut store = Store::new();
    let receipt = colors_mine(&mut store, ALICE, Some(BOB), &vec![(7, 10), (9, 4), (7, 6)]);
    // Duplicated colors accumulate, and both contribute to the fee.
    assert_eq!(receipt.pay_amount, 20);
    assert_eq!(receipt.events.len(), 3);
    assert_eq!(receipt.events[0], MinerOwnerColor { miner: ALICE, owner: BOB, color: 7 });
    assert_eq!(receipt.events[1], MinerOwnerColor { miner: ALICE, owner: BOB, color: 9 });
    assert_eq!(receipt.events[2], MinerOwnerColor { miner: ALICE, owner: BOB, color: 7 });
    assert_eq!(color_balance(&mut store, BOB, Some(ALICE), 7), 16);
    assert_eq!(color_balance(&mut store, BOB, Some(ALICE), 9), 4);
    // Nothing lands on the miner's own rows when a recipient is named.
    assert_eq!(color_balance(&mut store, ALICE, None, 7), 0);
}

#[test]
fn test_mine_defaults_to_miner() {
    let mut store = Store::new();
    colors_mine(&mut store, ALICE, None, &vec![(5, 3)]);
    // The miner defaults as recipient, and the miner defaults as the
    // looked-up miner when reading one's own balance.
    assert_eq!(color_balance(&mut store, ALICE, None, 5), 3);
    assert_eq!(color_balance(&mut store, ALICE, Some(ALICE), 5), 3);
    assert_eq!(color_balance(&mut store, BOB, Some(ALICE), 5), 0);
}

#[test]
fn test_transfer_moves_units() {
    let mut store = Store::new();
    mine_simple(&mut store, 7, 10);
    let r = colors_transfer(
        &mut store,
        ALICE,
        BOB,
        &vec![MinerColorAmount { miner: ALICE, color: 7, amount: 4 }],
    );
    assert!(r.is_ok());
    assert_eq!(color_balance(&mut store, ALICE, None, 7), 6);
    assert_eq!(color_balance(&mut store, BOB, Some(ALICE), 7), 4);
}

#[test]
fn test_transfer_underflow_discards_everything() {
    let mut store = Store::new();
    mine_simple(&mut store, 7, 10);
    mine_simple(&mut store, 9, 5);
    // The first entry would succeed; the second underflows; nothing of the
    // call persists.
    let r = colors_transfer(
        &mut store,
        ALICE,
        BOB,
        &vec![
            MinerColorAmount { miner: ALICE, color: 7, amount: 4 },
            MinerColorAmount { miner: ALICE, color: 9, amount: 6 },
        ],
    );
    assert_eq!(r, Err(Error::InsufficientColor));
    assert_eq!(color_balance(&mut store, ALICE, None, 7), 10);
    assert_eq!(color_balance(&mut store, ALICE, None, 9), 5);
    assert_eq!(color_balance(&mut store, BOB, Some(ALICE), 7), 0);
}

#[test]
fn test_craft_underflow_discards_everything() {
    let mut store = Store::new();
    mine_simple(&mut store, 7, 2);
    // Crafting three pixels of color 7 needs three units; only two are held.
    let comp = vec![mc(ALICE, vec![ci(7, vec![0, 1, 2])])];
    let r = glyph_mint(&mut store, 0, ALICE, None, Some(comp), None, None);
    assert!(matches!(r, Err(Error::InsufficientColor)));
    assert_eq!(color_balance(&mut store, ALICE, None, 7), 2);
    assert_eq!(store.drafts.len(), 0);
}

#[test]
fn test_encode_layout() {
    // Color 0x112233 at pixel index 1, nothing at index 0: the uncovered
    // slot is white, the covered one holds the low three bytes little
    // endian, and the width trails as four little-endian bytes.
    let comp = vec![mc(ALICE, vec![ci(0x112233, vec![1])])];
    let buf = encode(&comp, 7);
    assert_eq!(buf, vec![255, 255, 255, 0x33, 0x22, 0x11, 7, 0, 0, 0]);
}

#[test]
fn test_encode_last_write_wins() {
    // Two colors target pixel 0; the later write overwrites the earlier.
    let comp = vec![mc(ALICE, vec![ci(0x0000aa, vec![0]), ci(0x0000bb, vec![0])])];
    let buf = encode(&comp, 1);
    assert_eq!(buf, vec![0xbb, 0, 0, 1, 0, 0, 0]);
}

#[test]
fn test_hash_is_sha256_of_encoding() {
    let mut store = Store::new();
    mine_simple(&mut store, 0x112233, 2);
    let comp = vec![mc(ALICE, vec![ci(0x112233, vec![0, 1])])];
    let expected_bytes = encode(&comp, 4);
    let r = glyph_mint(&mut store, 0, ALICE, None, Some(comp), Some(4), None);
    let hash = match r {
        Ok(HashId::Hash(h)) => h,
        other => panic!("expected a hash, got {:?}", other.is_ok()),
    };
    let digest = Sha256::digest(&expected_bytes);
    assert_eq!(hash.as_slice(), digest.as_slice());
    assert_eq!(hash.len(), 32);
}

/// The composition used by the content-addressing test, built fresh each
/// time it is needed.
fn comp_two_pixels() -> Vec<MinerColors> {
    vec![mc(ALICE, vec![ci(5, vec![0, 1])])]
}

#[test]
fn test_content_addressing_and_minter_survival() {
    let mut store = Store::new();
    mine_simple(&mut store, 5, 4);
    let first = glyph_mint(&mut store, 0, ALICE, None, Some(comp_two_pixels()), Some(2), None);
    let hash = match first {
        Ok(HashId::Hash(h)) => h,
        _ => panic!("first mint failed"),
    };
    // While the first glyph is live, the identical composition and width
    // collide to the same hash and are rejected.
    let again = glyph_mint(&mut store, 0, ALICE, None, Some(comp_two_pixels()), Some(2), None);
    assert!(matches!(again, Err(Error::NotEmpty)));
    // After a full scrape, re-minting succeeds under the same hash, and the
    // first-ever minter record survives a mint by someone else.
    assert_eq!(store.minters.len(), 1);
    let scraped = glyph_scrape(&mut store, 0, ALICE, None, &HashId::Hash(hash.clone()));
    assert_eq!(scraped, Ok(None));
    colors_transfer(
        &mut store,
        ALICE,
        BOB,
        &vec![MinerColorAmount { miner: ALICE, color: 5, amount: 2 }],
    )
    .unwrap();
    let third = glyph_mint(&mut store, 0, BOB, None, Some(comp_two_pixels()), Some(2), None);
    let hash2 = match third {
        Ok(HashId::Hash(h)) => h,
        _ => panic!("re-mint failed"),
    };
    assert_eq!(hash, hash2);
    assert_eq!(store.minters.len(), 1);
    assert_eq!(store.minters[0].minter, ALICE);
}

#[test]
fn test_round_trip_returns_every_unit() {
    let mut store = Store::new();
    mine_simple(&mut store, 9, 5);
    // Craft a persisted draft spending all five units.
    let comp = vec![mc(ALICE, vec![ci(9, vec![0, 1, 2, 3, 4])])];
    let crafted = glyph_mint(&mut store, 100, ALICE, None, Some(comp), None, None);
    let id = match crafted {
        Ok(HashId::Id(id)) => id,
        _ => panic!("craft failed"),
    };
    assert_eq!(id, derive_id(100, ALICE));
    assert_eq!(color_balance(&mut store, ALICE, None, 9), 0);
    // Finalize the draft with a width.
    let stored = glyph_mint(&mut store, 100, ALICE, None, None, Some(5), Some(id));
    let hash = match stored {
        Ok(HashId::Hash(h)) => h,
        _ => panic!("store failed"),
    };
    assert_eq!(store.drafts.len(), 0);
    // Scrape it fully: one batch, no successor id, records gone, balance
    // restored to exactly the five minted units.
    let scraped = glyph_scrape(&mut store, 200, ALICE, None, &HashId::Hash(hash.clone()));
    assert_eq!(scraped, Ok(None));
    assert_eq!(color_balance(&mut store, ALICE, None, 9), 5);
    assert!(matches!(
        glyph_get(&mut store, &HashId::Hash(hash.clone())),
        Err(Error::NotFound)
    ));
    assert_eq!(store.owners.len(), 0);
    assert_eq!(store.glyphs.len(), 0);
}

#[test]
fn test_batch_boundary_leaves_exact_remainder() {
    let mut store = Store::new();
    // Sixteen (miner, color) entries: one more than a batch's cap.
    let mut pairs: Vec<(u32, u32)> = Vec::new();
    for c in 0..16u32 {
        pairs.push((c, 1));
    }
    colors_mine(&mut store, ALICE, None, &pairs);
    let mut entries: Vec<ColorIndexes> = Vec::new();
    for c in 0..16u32 {
        entries.push(ci(c, vec![c]));
    }
    let comp = vec![mc(ALICE, entries)];
    let minted = glyph_mint(&mut store, 0, ALICE, None, Some(comp), Some(4), None);
    let hash = match minted {
        Ok(HashId::Hash(h)) => h,
        _ => panic!("mint failed"),
    };
    let first = glyph_scrape(&mut store, 50, ALICE, None, &HashId::Hash(hash));
    let successor = match first {
        Ok(Some(id)) => id,
        _ => panic!("expected a successor id"),
    };
    assert_eq!(successor, derive_id(50, ALICE));
    // Exactly one entry remains under the successor id.
    match glyph_get(&mut store, &HashId::Id(successor)) {
        Ok(GlyphType::Colors(rest)) => {
            assert_eq!(rest.len(), 1);
            assert_eq!(rest[0].colors.len(), 1);
            assert_eq!(rest[0].colors[0].color, 15);
        },
        _ => panic!("remainder draft missing"),
    }
    // Fifteen of the sixteen units are already back.
    let mut reclaimed: u32 = 0;
    for c in 0..16u32 {
        reclaimed += color_balance(&mut store, ALICE, None, c);
    }
    assert_eq!(reclaimed, 15);
    // The second call drains the rest and reports completion.
    let second = glyph_scrape(&mut store, 60, ALICE, None, &HashId::Id(successor));
    assert_eq!(second, Ok(None));
    let mut total: u32 = 0;
    for c in 0..16u32 {
        total += color_balance(&mut store, ALICE, None, c);
    }
    assert_eq!(total, 16);
    assert_eq!(store.drafts.len(), 0);
}

#[test]
fn test_ownership_gate_blocks_strangers() {
    let mut store = Store::new();
    mine_simple(&mut store, 3, 1);
    let comp = vec![mc(ALICE, vec![ci(3, vec![0])])];
    let minted = glyph_mint(&mut store, 0, ALICE, None, Some(comp), Some(1), None);
    let hash = match minted {
        Ok(HashId::Hash(h)) => h,
        _ => panic!("mint failed"),
    };
    // A non-owner can neither transfer nor scrape by hash, and nothing
    // changes when it tries.
    let t = glyph_transfer(&mut store, 0, BOB, CAROL, &HashId::Hash(hash.clone()));
    assert_eq!(t, Err(Error::NotAuthorized));
    let s = glyph_scrape(&mut store, 0, BOB, None, &HashId::Hash(hash.clone()));
    assert_eq!(s, Err(Error::NotAuthorized));
    assert_eq!(glyph_verify_ownership(&mut store, ALICE, &hash), Ok(()));
    assert_eq!(store.owners.len(), 1);
    assert_eq!(store.owners[0].owner, ALICE);
    assert!(matches!(glyph_get(&mut store, &HashId::Hash(hash)), Ok(GlyphType::Glyph(_))));
}

#[test]
fn test_glyph_transfer_rebinds_owner() {
    let mut store = Store::new();
    mine_simple(&mut store, 3, 1);
    let comp = vec![mc(ALICE, vec![ci(3, vec![0])])];
    let minted = glyph_mint(&mut store, 0, ALICE, None, Some(comp), Some(1), None);
    let hash = match minted {
        Ok(HashId::Hash(h)) => h,
        _ => panic!("mint failed"),
    };
    assert_eq!(glyph_transfer(&mut store, 0, ALICE, BOB, &HashId::Hash(hash.clone())), Ok(None));
    assert_eq!(glyph_verify_ownership(&mut store, BOB, &hash), Ok(()));
    assert_eq!(glyph_verify_ownership(&mut store, ALICE, &hash), Err(Error::NotAuthorized));
    assert_eq!(
        glyph_verify_ownership(&mut store, ALICE, &vec![0u8; 32]),
        Err(Error::NotFound)
    );
}

#[test]
fn test_draft_transfer_moves_to_fresh_id() {
    let mut store = Store::new();
    mine_simple(&mut store, 3, 2);
    let comp = vec![mc(ALICE, vec![ci(3, vec![0, 1])])];
    let crafted = glyph_mint(&mut store, 1000, ALICE, None, Some(comp), None, None);
    let id = match crafted {
        Ok(HashId::Id(id)) => id,
        _ => panic!("craft failed"),
    };
    // Anyone holding a valid draft id may move it; no ownership gate exists
    // for drafts.
    let moved = glyph_transfer(&mut store, 2000, BOB, CAROL, &HashId::Id(id));
    let new_id = match moved {
        Ok(Some(nid)) => nid,
        _ => panic!("draft transfer failed"),
    };
    assert_eq!(new_id, derive_id(2000, CAROL));
    assert_ne!(new_id, id);
    assert!(matches!(glyph_get(&mut store, &HashId::Id(id)), Err(Error::NotFound)));
    assert!(matches!(glyph_get(&mut store, &HashId::Id(new_id)), Ok(GlyphType::Colors(_))));
}

#[test]
fn test_mint_missing_parameters() {
    let mut store = Store::new();
    assert!(matches!(
        glyph_mint(&mut store, 0, ALICE, None, None, Some(4), None),
        Err(Error::MissingId)
    ));
    assert!(matches!(
        glyph_mint(&mut store, 0, ALICE, None, None, None, Some(9)),
        Err(Error::MissingWidth)
    ));
    assert!(matches!(
        glyph_mint(&mut store, 0, ALICE, None, None, Some(4), Some(9)),
        Err(Error::NotFound)
    ));
    let comp = vec![mc(ALICE, vec![ci(3, vec![0])])];
    assert!(matches!(
        glyph_mint(&mut store, 0, ALICE, None, Some(comp), Some(1), Some(9)),
        Err(Error::NotFound)
    ));
}

#[test]
fn test_craft_merges_and_appends() {
    let mut store = Store::new();
    colors_mine(&mut store, ALICE, None, &vec![(1, 4), (2, 2)]);
    colors_mine(&mut store, BOB, Some(ALICE), &vec![(9, 1)]);
    // First craft: one miner, one color.
    let first = vec![mc(ALICE, vec![ci(1, vec![0, 1])])];
    let id = match glyph_mint(&mut store, 7, ALICE, None, Some(first), None, None) {
        Ok(HashId::Id(id)) => id,
        _ => panic!("craft failed"),
    };
    // Second craft into the same draft: appends to color 1, inserts color 2,
    // and adopts a brand-new miner's list in one step.
    let second = vec![
        mc(ALICE, vec![ci(1, vec![2, 3]), ci(2, vec![4, 5])]),
        mc(BOB, vec![ci(9, vec![6])]),
    ];
    let again = glyph_mint(&mut store, 8, ALICE, None, Some(second), None, Some(id));
    assert!(matches!(again, Ok(HashId::Id(_))));
    assert_eq!(color_balance(&mut store, ALICE, None, 1), 0);
    assert_eq!(color_balance(&mut store, ALICE, None, 2), 0);
    assert_eq!(color_balance(&mut store, ALICE, Some(BOB), 9), 0);
    match glyph_get(&mut store, &HashId::Id(id)) {
        Ok(GlyphType::Colors(merged)) => {
            assert_eq!(merged.len(), 2);
            assert_eq!(merged[0].miner, ALICE);
            assert_eq!(merged[0].colors[0].indexes, vec![0, 1, 2, 3]);
            assert_eq!(merged[0].colors[1].color, 2);
            assert_eq!(merged[0].colors[1].indexes, vec![4, 5]);
            assert_eq!(merged[1].miner, BOB);
            assert_eq!(merged[1].colors[0].indexes, vec![6]);
        },
        _ => panic!("draft missing"),
    }
}

#[test]
fn test_glyph_record_length_and_width() {
    let mut store = Store::new();
    mine_simple(&mut store, 4, 2);
    // Pixels at indices 0 and 3: coverage is 4 slots.
    let comp = vec![mc(ALICE, vec![ci(4, vec![0, 3])])];
    let hash = match glyph_mint(&mut store, 0, ALICE, None, Some(comp), Some(2), None) {
        Ok(HashId::Hash(h)) => h,
        _ => panic!("mint failed"),
    };
    match glyph_get(&mut store, &HashId::Hash(hash)) {
        Ok(GlyphType::Glyph(g)) => {
            assert_eq!(g.width, 2);
            assert_eq!(g.length, 4);
            assert_eq!(g.colors.len(), 1);
        },
        _ => panic!("glyph missing"),
    }
}

#[test]
fn test_scrape_deletes_offer_record() {
    let mut store = Store::new();
    mine_simple(&mut store, 3, 1);
    let comp = vec![mc(ALICE, vec![ci(3, vec![0])])];
    let hash = match glyph_mint(&mut store, 0, ALICE, None, Some(comp), Some(1), None) {
        Ok(HashId::Hash(h)) => h,
        _ => panic!("mint failed"),
    };
    // The marketplace collaborator left an offer keyed by this hash.
    store.offers.push(OfferEntry { hash: hash.clone(), retention: MAX_RETENTION });
    assert_eq!(glyph_scrape(&mut store, 0, ALICE, None, &HashId::Hash(hash)), Ok(None));
    assert_eq!(store.offers.len(), 0);
}

#[test]
fn test_scrape_recipient_defaults_and_redirects() {
    let mut store = Store::new();
    mine_simple(&mut store, 3, 2);
    let comp = vec![mc(ALICE, vec![ci(3, vec![0, 1])])];
    let hash = match glyph_mint(&mut store, 0, ALICE, None, Some(comp), Some(1), None) {
        Ok(HashId::Hash(h)) => h,
        _ => panic!("mint failed"),
    };
    // Scraping to an explicit recipient credits that recipient's rows.
    assert_eq!(glyph_scrape(&mut store, 0, ALICE, Some(BOB), &HashId::Hash(hash)), Ok(None));
    assert_eq!(color_balance(&mut store, BOB, Some(ALICE), 3), 2);
    assert_eq!(color_balance(&mut store, ALICE, None, 3), 0);
}

#[test]
fn test_quick_mint_with_draft_keeps_the_draft() {
    let mut store = Store::new();
    mine_simple(&mut store, 1, 3);
    // A persisted draft holding two pixels.
    let part = vec![mc(ALICE, vec![ci(1, vec![0, 1])])];
    let id = match glyph_mint(&mut store, 10, ALICE, None, Some(part), None, None) {
        Ok(HashId::Id(id)) => id,
        _ => panic!("craft failed"),
    };
    // A quick mint that continues the draft transiently: the glyph holds the
    // merged composition, but the draft record itself is left in place with
    // its original contents.
    let more = vec![mc(ALICE, vec![ci(1, vec![2])])];
    let hash = match glyph_mint(&mut store, 10, ALICE, None, Some(more), Some(1), Some(id)) {
        Ok(HashId::Hash(h)) => h,
        _ => panic!("quick mint failed"),
    };
    assert_eq!(color_balance(&mut store, ALICE, None, 1), 0);
    assert_eq!(store.drafts.len(), 1);
    match glyph_get(&mut store, &HashId::Id(id)) {
        Ok(GlyphType::Colors(draft)) => {
            assert_eq!(draft[0].colors[0].indexes, vec![0, 1]);
        },
        _ => panic!("draft should have survived"),
    }
    match glyph_get(&mut store, &HashId::Hash(hash)) {
        Ok(GlyphType::Glyph(g)) => {
            assert_eq!(g.colors[0].colors[0].indexes, vec![0, 1, 2]);
            assert_eq!(g.length, 3);
        },
        _ => panic!("glyph missing"),
    }
}

#[test]
fn test_craft_skips_colorless_miner_entries() {
    let mut store = Store::new();
    mine_simple(&mut store, 1, 1);
    // An incoming miner entry with no color entries commits nothing: it is
    // neither debited nor adopted into the draft.
    let comp = vec![mc(ALICE, vec![ci(1, vec![0])]), mc(BOB, vec![])];
    let id = match glyph_mint(&mut store, 0, ALICE, None, Some(comp), None, None) {
        Ok(HashId::Id(id)) => id,
        _ => panic!("craft failed"),
    };
    match glyph_get(&mut store, &HashId::Id(id)) {
        Ok(GlyphType::Colors(draft)) => {
            assert_eq!(draft.len(), 1);
            assert_eq!(draft[0].miner, ALICE);
        },
        _ => panic!("draft missing"),
    }
}

#[test]
fn test_self_transfer_changes_nothing() {
    let mut store = Store::new();
    mine_simple(&mut store, 7, 5);
    // Sender and recipient coincide: the debit and credit hit the same row.
    let r = colors_transfer(
        &mut store,
        ALICE,
        ALICE,
        &vec![MinerColorAmount { miner: ALICE, color: 7, amount: 3 }],
    );
    assert!(r.is_ok());
    assert_eq!(color_balance(&mut store, ALICE, None, 7), 5);
}
