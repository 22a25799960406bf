//! The data model: color balances, draft compositions, finalized glyphs,
//! ownership records, and the key-addressed persistent store they live in.

use vstd::prelude::*;

verus! {

/// The value a record's retention timer is refreshed to on every access:
/// the system maximum.  A record whose timer is never refreshed may expire
/// at the host's discretion; refreshing is modeled as a first-class effect.
pub const MAX_RETENTION: u64 = u64::MAX;

/// How many (miner, color) entries a single scrape call may reclaim.
pub const MAX_PAYMENT_COUNT: usize = 15;

/// An optional address, falling back to a default: `to` defaults to the
/// caller in every operation that takes an optional recipient.
pub open spec fn addr_or(a: Option<u64>, d: u64) -> u64 {
    match a {
        Some(x) => x,
        None => d,
    }
}

/// The error taxonomy.  Every error aborts the whole call: the store is
/// left exactly as it was.
#[derive(Clone, Copy, Debug, PartialEq, Eq, Structural)]
pub enum Error {
    /// A referenced draft, glyph, owner or minter record is absent.
    NotFound,
    /// The caller is not the recorded owner of the glyph.
    NotAuthorized,
    /// The composition+width pair is already live under its hash.
    NotEmpty,
    /// The caller omitted a required id for the chosen mint mode.
    MissingId,
    /// The caller omitted a required width for the chosen mint mode.
    MissingWidth,
    /// A ledger debit would underflow a color balance.
    InsufficientColor,
    /// An unreachable dispatch path was hit; never expected.
    InternalInvariant,
}

/// A (miner, owner, color) triple; the payload of one mint event.
#[derive(Clone, Copy, Debug, PartialEq, Eq, Structural)]
pub struct MinerOwnerColor {
    pub miner: u64,
    pub owner: u64,
    pub color: u32,
}

/// One entry of a color transfer: move `amount` units of `color`,
/// as mined by `miner`, from one owner to another.
#[derive(Clone, Copy, Debug, PartialEq, Eq, Structural)]
pub struct MinerColorAmount {
    pub miner: u64,
    pub color: u32,
    pub amount: u32,
}

/// What a successful mine call reports back to the host: the summed fee to
/// charge the miner, and one mint event per processed (color, amount) pair.
pub struct MineReceipt {
    pub pay_amount: i128,
    pub events: Vec<MinerOwnerColor>,
}

/// An identifier crossing the boundary: either a 32-byte content hash of a
/// finalized glyph, or the numeric id of a draft composition.
pub enum HashId {
    Hash(Vec<u8>),
    Id(u64),
}

/// The pixel indices assigned to one color inside a composition.
pub struct ColorIndexes {
    pub color: u32,
    pub indexes: Vec<u32>,
}

/// One miner's portion of a composition: an insertion-ordered list of
/// (color, indices) entries with pairwise distinct colors.
pub struct MinerColors {
    pub miner: u64,
    pub colors: Vec<ColorIndexes>,
}

/// Mathematical value of a [`ColorIndexes`].
pub struct ColorIndexesV {
    pub color: u32,
    pub indexes: Seq<u32>,
}

/// Mathematical value of a [`MinerColors`].
pub struct MinerColorsV {
    pub miner: u64,
    pub colors: Seq<ColorIndexesV>,
}

impl DeepView for ColorIndexes {
    type V = ColorIndexesV;

    open spec fn deep_view(&self) -> ColorIndexesV {
        ColorIndexesV { color: self.color, indexes: self.indexes@ }
    }
}

impl DeepView for MinerColors {
    type V = MinerColorsV;

    open spec fn deep_view(&self) -> MinerColorsV {
        MinerColorsV { miner: self.miner, colors: self.colors.deep_view() }
    }
}

/// One row of the color ledger: units of `color` mined by `miner` and
/// currently owned by `owner`.  A zero balance persists as a zero row.
#[derive(Clone, Copy, Debug)]
pub struct BalanceRow {
    pub miner: u64,
    pub owner: u64,
    pub color: u32,
    pub amount: u32,
    pub retention: u64,
}

/// A finalized glyph: its width, its pixel length (one 3-byte sample per
/// covered pixel index), and the composition it was built from.
pub struct Glyph {
    pub width: u32,
    pub length: u32,
    pub colors: Vec<MinerColors>,
}

/// Mathematical value of a [`Glyph`].
pub struct GlyphVal {
    pub width: u32,
    pub length: u32,
    pub colors: Seq<MinerColorsV>,
}

impl DeepView for Glyph {
    type V = GlyphVal;

    open spec fn deep_view(&self) -> GlyphVal {
        GlyphVal { width: self.width, length: self.length, colors: self.colors.deep_view() }
    }
}

/// A persisted draft composition, keyed by its ephemeral numeric id.
pub struct DraftEntry {
    pub id: u64,
    pub colors: Vec<MinerColors>,
    pub retention: u64,
}

pub struct DraftEntryV {
    pub id: u64,
    pub colors: Seq<MinerColorsV>,
    pub retention: u64,
}

impl DeepView for DraftEntry {
    type V = DraftEntryV;

    open spec fn deep_view(&self) -> DraftEntryV {
        DraftEntryV { id: self.id, colors: self.colors.deep_view(), retention: self.retention }
    }
}

/// A live glyph record, keyed by its 32-byte content hash.
pub struct GlyphEntry {
    pub hash: Vec<u8>,
    pub glyph: Glyph,
    pub retention: u64,
}

pub struct GlyphEntryV {
    pub hash: Seq<u8>,
    pub glyph: GlyphVal,
    pub retention: u64,
}

impl DeepView for GlyphEntry {
    type V = GlyphEntryV;

    open spec fn deep_view(&self) -> GlyphEntryV {
        GlyphEntryV { hash: self.hash@, glyph: self.glyph.deep_view(), retention: self.retention }
    }
}

/// The current owner of a live glyph; absence means the glyph is not live.
pub struct OwnerEntry {
    pub hash: Vec<u8>,
    pub owner: u64,
    pub retention: u64,
}

pub struct OwnerEntryV {
    pub hash: Seq<u8>,
    pub owner: u64,
    pub retention: u64,
}

impl DeepView for OwnerEntry {
    type V = OwnerEntryV;

    open spec fn deep_view(&self) -> OwnerEntryV {
        OwnerEntryV { hash: self.hash@, owner: self.owner, retention: self.retention }
    }
}

/// The first-ever minter of a glyph hash; written once, never deleted.
pub struct MinterEntry {
    pub hash: Vec<u8>,
    pub minter: u64,
    pub retention: u64,
}

pub struct MinterEntryV {
    pub hash: Seq<u8>,
    pub minter: u64,
    pub retention: u64,
}

impl DeepView for MinterEntry {
    type V = MinterEntryV;

    open spec fn deep_view(&self) -> MinterEntryV {
        MinterEntryV { hash: self.hash@, minter: self.minter, retention: self.retention }
    }
}

/// A marketplace offer record keyed by a glyph hash.  The marketplace is an
/// external collaborator; scraping a glyph must delete its offer record.
pub struct OfferEntry {
    pub hash: Vec<u8>,
    pub retention: u64,
}

pub struct OfferEntryV {
    pub hash: Seq<u8>,
    pub retention: u64,
}

impl DeepView for OfferEntry {
    type V = OfferEntryV;

    open spec fn deep_view(&self) -> OfferEntryV {
        OfferEntryV { hash: self.hash@, retention: self.retention }
    }
}

/// The key-addressed persistent store, injected into every operation.
pub struct Store {
    pub balances: Vec<BalanceRow>,
    pub drafts: Vec<DraftEntry>,
    pub glyphs: Vec<GlyphEntry>,
    pub owners: Vec<OwnerEntry>,
    pub minters: Vec<MinterEntry>,
    pub offers: Vec<OfferEntry>,
}

/// Mathematical value of a [`Store`].
pub struct StoreV {
    pub balances: Seq<BalanceRow>,
    pub drafts: Seq<DraftEntryV>,
    pub glyphs: Seq<GlyphEntryV>,
    pub owners: Seq<OwnerEntryV>,
    pub minters: Seq<MinterEntryV>,
    pub offers: Seq<OfferEntryV>,
}

impl View for Store {
    type V = StoreV;

    open spec fn view(&self) -> StoreV {
        StoreV {
            balances: self.balances@,
            drafts: self.drafts.deep_view(),
            glyphs: self.glyphs.deep_view(),
            owners: self.owners.deep_view(),
            minters: self.minters.deep_view(),
            offers: self.offers.deep_view(),
        }
    }
}

impl Store {
    /// An empty store: no balances, drafts, glyphs, owners, minters, offers.
    pub fn new() -> (s: Store)
        ensures
            s@.balances.len() == 0,
            s@.drafts.len() == 0,
            s@.glyphs.len() == 0,
            s@.owners.len() == 0,
            s@.minters.len() == 0,
            s@.offers.len() == 0,
    {
        let s = Store {
            balances: Vec::new(),
            drafts: Vec::new(),
            glyphs: Vec::new(),
            owners: Vec::new(),
            minters: Vec::new(),
            offers: Vec::new(),
        };
        assert(s@.drafts =~= Seq::<DraftEntryV>::empty());
        assert(s@.glyphs =~= Seq::<GlyphEntryV>::empty());
        assert(s@.owners =~= Seq::<OwnerEntryV>::empty());
        assert(s@.minters =~= Seq::<MinterEntryV>::empty());
        assert(s@.offers =~= Seq::<OfferEntryV>::empty());
        s
    }
}

} // verus!
