//! The data of the catalog and of the shards, and the mathematical value of each.
//!
//! Text is viewed as its UTF-8 bytes: byte lengths are bounded, bytes are
//! hashed and bytes order the keys. A map is viewed as the list of its pairs
//! in key order.

use vstd::prelude::*;
use vstd::slice::slice_to_vec;
use vstd::utf8::encode_utf8;

use crate::ordered_map::OrderedMap;
use crate::sorting::{views, Keyed};

verus! {

/// Parameters fixed when the catalog is deployed.
#[derive(Clone, Debug, PartialEq, Eq)]
pub struct CatalogParameters {
    pub protocol_version: u16,
    pub shard_count: u8,
    pub confirmation_weight_threshold: u32,
    pub entry_ttl_days: u16,
}

/// Lifecycle status of a catalog entry.
#[derive(Clone, Copy, Debug, Default, PartialEq, Eq, Structural)]
pub enum Status {
    #[default]
    Pending,
    Confirmed,
    Disputed,
    Expired,
}

/// Proof-of-work token that makes flooding costly.
#[derive(Clone, Debug, PartialEq, Eq)]
pub struct AntifloodToken {
    pub nonce: Vec<u8>,
    pub difficulty: u8,
}

/// The value of an [`AntifloodToken`].
pub struct TokenView {
    pub nonce: Seq<u8>,
    pub difficulty: u8,
}

impl View for AntifloodToken {
    type V = TokenView;

    open spec fn view(&self) -> TokenView {
        TokenView { nonce: self.nonce@, difficulty: self.difficulty }
    }
}

/// A contributor's statement that a metadata hash describes a contract.
#[derive(Clone, Debug, PartialEq, Eq)]
pub struct Attestation {
    pub contributor_pubkey: [u8; 32],
    pub antiflood_token: AntifloodToken,
    pub token_created_at: u64,
    pub weight: u32,
}

/// The value of an [`Attestation`].
pub struct AttestationView {
    pub contributor_pubkey: Seq<u8>,
    pub antiflood_token: TokenView,
    pub token_created_at: u64,
    pub weight: u32,
}

impl View for Attestation {
    type V = AttestationView;

    open spec fn view(&self) -> AttestationView {
        AttestationView {
            contributor_pubkey: self.contributor_pubkey@,
            antiflood_token: self.antiflood_token@,
            token_created_at: self.token_created_at,
            weight: self.weight,
        }
    }
}

impl Keyed for Attestation {
    /// An attestation is ordered and found by its contributor.
    open spec fn key_of(value: AttestationView) -> Seq<u8> {
        value.contributor_pubkey
    }

    fn key_bytes(&self) -> (bytes: &[u8]) {
        self.contributor_pubkey.as_slice()
    }
}

/// The values of a list of attestations.
pub open spec fn attestations_view(s: Seq<Attestation>) -> Seq<AttestationView> {
    views(s)
}

/// One competing description of a contract, with those who attest to it.
#[derive(Clone, Debug, PartialEq, Eq)]
pub struct HashVariant {
    pub title: String,
    pub description: String,
    pub mini_snippet: String,
    pub attestations: Vec<Attestation>,
    pub total_weight: u32,
}

/// The value of a [`HashVariant`].
pub struct VariantView {
    pub title: Seq<u8>,
    pub description: Seq<u8>,
    pub mini_snippet: Seq<u8>,
    pub attestations: Seq<AttestationView>,
    pub total_weight: u32,
}

impl View for HashVariant {
    type V = VariantView;

    open spec fn view(&self) -> VariantView {
        VariantView {
            title: encode_utf8(self.title@),
            description: encode_utf8(self.description@),
            mini_snippet: encode_utf8(self.mini_snippet@),
            attestations: attestations_view(self.attestations@),
            total_weight: self.total_weight,
        }
    }
}

/// The values of the variants of an entry, in the order of their hashes.
pub open spec fn variants_view(s: Seq<(Seq<u8>, HashVariant)>) -> Seq<(Seq<u8>, VariantView)> {
    s.map_values(|p: (Seq<u8>, HashVariant)| (p.0, p.1@))
}

/// One indexed contract.
#[derive(Clone, Debug, PartialEq, Eq)]
pub struct CatalogEntry {
    pub contract_key: String,
    pub hash_variants: OrderedMap<[u8; 32], HashVariant>,
    pub size_bytes: u64,
    pub version: Option<u64>,
    pub status: Status,
    pub first_seen: u64,
    pub last_seen: u64,
}

/// The value of a [`CatalogEntry`].
pub struct EntryView {
    pub contract_key: Seq<u8>,
    pub hash_variants: Seq<(Seq<u8>, VariantView)>,
    pub size_bytes: u64,
    pub version: Option<u64>,
    pub status: Status,
    pub first_seen: u64,
    pub last_seen: u64,
}

impl View for CatalogEntry {
    type V = EntryView;

    open spec fn view(&self) -> EntryView {
        EntryView {
            contract_key: encode_utf8(self.contract_key@),
            hash_variants: variants_view(self.hash_variants.entries()),
            size_bytes: self.size_bytes,
            version: self.version,
            status: self.status,
            first_seen: self.first_seen,
            last_seen: self.last_seen,
        }
    }
}

impl CatalogEntry {
    /// The map of variants is in order.
    pub open spec fn wf(&self) -> bool {
        self.hash_variants.wf()
    }
}

/// The values of the entries of a catalog, in the order of their keys.
pub open spec fn entries_view(s: Seq<(Seq<u8>, CatalogEntry)>) -> Seq<(Seq<u8>, EntryView)> {
    s.map_values(|p: (Seq<u8>, CatalogEntry)| (p.0, p.1@))
}

/// Reputation of a contributor.
#[derive(Clone, Debug, PartialEq, Eq)]
pub struct ContributorScore {
    pub pubkey: [u8; 32],
    pub trust_score: u32,
    pub total_contributions: u32,
}

/// The value of a [`ContributorScore`].
pub struct ContributorView {
    pub pubkey: Seq<u8>,
    pub trust_score: u32,
    pub total_contributions: u32,
}

impl View for ContributorScore {
    type V = ContributorView;

    open spec fn view(&self) -> ContributorView {
        ContributorView {
            pubkey: self.pubkey@,
            trust_score: self.trust_score,
            total_contributions: self.total_contributions,
        }
    }
}

/// The values of the contributors of a catalog, in the order of their keys.
pub open spec fn contributors_view(s: Seq<(Seq<u8>, ContributorScore)>) -> Seq<
    (Seq<u8>, ContributorView),
> {
    s.map_values(|p: (Seq<u8>, ContributorScore)| (p.0, p.1@))
}

/// The whole state of the catalog.
#[derive(Clone, Debug, PartialEq, Eq)]
pub struct CatalogState {
    pub entries: OrderedMap<String, CatalogEntry>,
    pub contributors: OrderedMap<[u8; 32], ContributorScore>,
}

/// The value of a [`CatalogState`].
pub struct CatalogView {
    pub entries: Seq<(Seq<u8>, EntryView)>,
    pub contributors: Seq<(Seq<u8>, ContributorView)>,
}

impl View for CatalogState {
    type V = CatalogView;

    open spec fn view(&self) -> CatalogView {
        CatalogView {
            entries: entries_view(self.entries.entries()),
            contributors: contributors_view(self.contributors.entries()),
        }
    }
}

impl CatalogState {
    /// Every map of the state is in order.
    pub open spec fn wf(&self) -> bool {
        &&& self.entries.wf()
        &&& self.contributors.wf()
        &&& forall|i: int|
            0 <= i < self.entries.entries().len() ==> (#[trigger] self.entries.entries()[i]).1.wf()
    }

    /// The state without entries and contributors.
    pub fn new() -> (state: Self)
        ensures
            state.wf(),
            state@.entries.len() == 0,
            state@.contributors.len() == 0,
    {
        CatalogState { entries: OrderedMap::new(), contributors: OrderedMap::new() }
    }
}

impl Default for CatalogState {
    fn default() -> (state: Self)
        ensures
            state.wf(),
            state@.entries.len() == 0,
            state@.contributors.len() == 0,
    {
        CatalogState::new()
    }
}

/// An update of the catalog by one contributor.
#[derive(Clone, Debug, PartialEq, Eq)]
pub struct CatalogDelta {
    pub contract_key: String,
    pub title: String,
    pub description: String,
    pub mini_snippet: String,
    pub snippet: String,
    pub size_bytes: u64,
    pub version: Option<u64>,
    pub metadata_hash: [u8; 32],
    pub attestation: Attestation,
}

/// The value of a [`CatalogDelta`].
pub struct DeltaView {
    pub contract_key: Seq<u8>,
    pub title: Seq<u8>,
    pub description: Seq<u8>,
    pub mini_snippet: Seq<u8>,
    pub snippet: Seq<u8>,
    pub size_bytes: u64,
    pub version: Option<u64>,
    pub metadata_hash: Seq<u8>,
    pub attestation: AttestationView,
}

impl View for CatalogDelta {
    type V = DeltaView;

    open spec fn view(&self) -> DeltaView {
        DeltaView {
            contract_key: encode_utf8(self.contract_key@),
            title: encode_utf8(self.title@),
            description: encode_utf8(self.description@),
            mini_snippet: encode_utf8(self.mini_snippet@),
            snippet: encode_utf8(self.snippet@),
            size_bytes: self.size_bytes,
            version: self.version,
            metadata_hash: self.metadata_hash@,
            attestation: self.attestation@,
        }
    }
}

/// The values of a list of catalog deltas.
pub open spec fn deltas_view(s: Seq<CatalogDelta>) -> Seq<DeltaView> {
    s.map_values(|d: CatalogDelta| d@)
}

/// One document under one term of the inverted index.
#[derive(Clone, Debug, PartialEq, Eq)]
pub struct TermEntry {
    pub contract_key: String,
    pub snippet: String,
    pub tf_idf_score: u32,
}

/// The value of a [`TermEntry`].
pub struct TermView {
    pub contract_key: Seq<u8>,
    pub snippet: Seq<u8>,
    pub tf_idf_score: u32,
}

impl View for TermEntry {
    type V = TermView;

    open spec fn view(&self) -> TermView {
        TermView {
            contract_key: encode_utf8(self.contract_key@),
            snippet: encode_utf8(self.snippet@),
            tf_idf_score: self.tf_idf_score,
        }
    }
}

impl Keyed for TermEntry {
    /// A document under a term is ordered and found by its contract key.
    open spec fn key_of(value: TermView) -> Seq<u8> {
        value.contract_key
    }

    fn key_bytes(&self) -> (bytes: &[u8]) {
        self.contract_key.as_str().as_bytes()
    }
}

/// The values of the documents under one term.
pub open spec fn terms_view(s: Seq<TermEntry>) -> Seq<TermView> {
    views(s)
}

/// The values of the index of a shard, in the order of the terms.
pub open spec fn index_view(s: Seq<(Seq<u8>, Vec<TermEntry>)>) -> Seq<(Seq<u8>, Seq<TermView>)> {
    s.map_values(|p: (Seq<u8>, Vec<TermEntry>)| (p.0, terms_view(p.1@)))
}

/// The whole state of one full-text shard.
#[derive(Clone, Debug, PartialEq, Eq)]
pub struct ShardState {
    pub shard_id: u8,
    pub index: OrderedMap<String, Vec<TermEntry>>,
}

/// The value of a [`ShardState`].
pub struct ShardView {
    pub shard_id: u8,
    pub index: Seq<(Seq<u8>, Seq<TermView>)>,
}

impl View for ShardState {
    type V = ShardView;

    open spec fn view(&self) -> ShardView {
        ShardView { shard_id: self.shard_id, index: index_view(self.index.entries()) }
    }
}

impl ShardState {
    /// The index is in order.
    pub open spec fn wf(&self) -> bool {
        self.index.wf()
    }

    /// The empty shard with the given id.
    pub fn new(shard_id: u8) -> (state: Self)
        ensures
            state.wf(),
            state@.shard_id == shard_id,
            state@.index.len() == 0,
    {
        ShardState { shard_id, index: OrderedMap::new() }
    }
}

impl Default for ShardState {
    fn default() -> (state: Self)
        ensures
            state.wf(),
            state@.shard_id == 0,
            state@.index.len() == 0,
    {
        ShardState::new(0)
    }
}

/// One term of one document in a shard delta.
#[derive(Clone, Debug, PartialEq, Eq)]
pub struct ShardDeltaEntry {
    pub word: String,
    pub contract_key: String,
    pub snippet: String,
    pub tf_idf_score: u32,
}

/// The value of a [`ShardDeltaEntry`].
pub struct ShardDeltaEntryView {
    pub word: Seq<u8>,
    pub contract_key: Seq<u8>,
    pub snippet: Seq<u8>,
    pub tf_idf_score: u32,
}

impl View for ShardDeltaEntry {
    type V = ShardDeltaEntryView;

    open spec fn view(&self) -> ShardDeltaEntryView {
        ShardDeltaEntryView {
            word: encode_utf8(self.word@),
            contract_key: encode_utf8(self.contract_key@),
            snippet: encode_utf8(self.snippet@),
            tf_idf_score: self.tf_idf_score,
        }
    }
}

/// The values of the entries of a shard delta.
pub open spec fn shard_entries_view(s: Seq<ShardDeltaEntry>) -> Seq<ShardDeltaEntryView> {
    s.map_values(|e: ShardDeltaEntry| e@)
}

/// An update of one shard by one contributor.
#[derive(Clone, Debug, PartialEq, Eq)]
pub struct ShardDelta {
    pub entries: Vec<ShardDeltaEntry>,
    pub antiflood_token: AntifloodToken,
}

/// The value of a [`ShardDelta`].
pub struct ShardDeltaView {
    pub entries: Seq<ShardDeltaEntryView>,
    pub antiflood_token: TokenView,
}

impl View for ShardDelta {
    type V = ShardDeltaView;

    open spec fn view(&self) -> ShardDeltaView {
        ShardDeltaView {
            entries: shard_entries_view(self.entries@),
            antiflood_token: self.antiflood_token@,
        }
    }
}

/// Why a contract operation refused its input.
#[derive(Clone, Debug, PartialEq, Eq)]
pub enum ContractError {
    /// A state failed to decode or broke an invariant.
    InvalidState,
    /// An update failed validation.
    InvalidUpdate,
    /// An update was refused for the stated reason.
    InvalidUpdateWithInfo { reason: String },
    /// Bytes could not be decoded.
    Deser(String),
    /// A failure of framing, bounds or signature.
    Other(String),
}

/// Copies a token.
pub fn clone_token(token: &AntifloodToken) -> (copy: AntifloodToken)
    ensures
        copy@ == token@,
{
    AntifloodToken { nonce: slice_to_vec(token.nonce.as_slice()), difficulty: token.difficulty }
}

/// Copies an attestation.
pub fn clone_attestation(attestation: &Attestation) -> (copy: Attestation)
    ensures
        copy@ == attestation@,
{
    Attestation {
        contributor_pubkey: attestation.contributor_pubkey,
        antiflood_token: clone_token(&attestation.antiflood_token),
        token_created_at: attestation.token_created_at,
        weight: attestation.weight,
    }
}

} // verus!
