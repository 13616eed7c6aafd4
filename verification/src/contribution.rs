//! Contributions: what a contributor submits for a web application it has
//! found, one delta for the catalog and one for every shard that its terms
//! belong to.

use vstd::prelude::*;
use vstd::string::StringExecFns;
use vstd::utf8::encode_utf8;

use crate::discovery::{
    extract_metadata, is_metadata_of, page_canonical_description, page_canonical_snippet,
    page_canonical_title, page_hash, text_or_empty, ExtractedMetadata, MINI_SNIPPET_CHARS,
    SNIPPET_CHARS,
};
use crate::extraction::{extract_version_from_state, index_page, state_version};
use crate::hashing::{shard_for_word, shard_of};
use crate::identity::{ed25519_signature, sign_data};
use crate::ordered_map::{assoc_get, has_key, index_of_key, lemma_same_keys};
use crate::shard::{shard_delta_acceptable, shard_entry_acceptable, token_acceptable, SHARD_COUNT};
use crate::tokenization::{
    lemma_text_empty, lemma_tokens_kept, texts, tokenize, tokens_of, words_of,
};
use crate::types::{
    clone_token, shard_entries_view, AntifloodToken, Attestation, AttestationView, CatalogDelta,
    CatalogState, CatalogView, DeltaView, ShardDelta, ShardDeltaEntry, ShardDeltaEntryView,
    TokenView,
};

verus! {

/// The score with which a term is first indexed.
pub const BASE_SCORE: u32 = 10000;

/// The weight with which an attestation is submitted; the catalog sets its own.
pub const SUBMITTED_WEIGHT: u32 = 1;

/// What a contributor submits for one web application.
#[derive(Clone, Debug, PartialEq, Eq)]
pub struct Contribution {
    /// The delta for the catalog.
    pub catalog_delta: CatalogDelta,
    /// The deltas for the shards, each with the id of its shard, in the order
    /// of the ids.
    pub shard_deltas: Vec<(u8, ShardDelta)>,
    /// The signature of the contributor over the metadata hash.
    pub signature: [u8; 64],
}

/// Whether a catalog holds the variant `hash` of the contract `key`.
pub open spec fn already_known(catalog: CatalogView, key: Seq<u8>, hash: Seq<u8>) -> bool {
    match assoc_get(catalog.entries, key) {
        Some(e) => has_key(e.hash_variants, hash),
        None => false,
    }
}

/// The entry of a shard delta for one term of a document.
pub open spec fn term_entry(word: Seq<char>, contract_key: Seq<u8>, snippet: Seq<u8>) -> ShardDeltaEntryView {
    ShardDeltaEntryView {
        word: encode_utf8(word),
        contract_key,
        snippet,
        tf_idf_score: BASE_SCORE,
    }
}

/// The entries for the terms that belong to a shard, in the order of the terms.
pub open spec fn entries_for(
    tokens: Seq<Seq<char>>,
    shard: u8,
    contract_key: Seq<u8>,
    snippet: Seq<u8>,
) -> Seq<ShardDeltaEntryView>
    decreases tokens.len(),
{
    if tokens.len() == 0 {
        Seq::empty()
    } else {
        let rest = entries_for(tokens.drop_last(), shard, contract_key, snippet);
        if shard_of(encode_utf8(tokens.last()), SHARD_COUNT) == shard {
            rest.push(term_entry(tokens.last(), contract_key, snippet))
        } else {
            rest
        }
    }
}

/// The delta for the catalog that a contributor submits for a page.
pub open spec fn contribution_delta(
    contract_key: Seq<u8>,
    state: Seq<u8>,
    page: Seq<char>,
    public_key: Seq<u8>,
    token: TokenView,
    now: u64,
) -> DeltaView {
    DeltaView {
        contract_key,
        title: encode_utf8(text_or_empty(page_canonical_title(page))),
        description: encode_utf8(text_or_empty(page_canonical_description(page))),
        mini_snippet: encode_utf8(page_canonical_snippet(page, MINI_SNIPPET_CHARS)),
        snippet: encode_utf8(page_canonical_snippet(page, SNIPPET_CHARS)),
        size_bytes: state.len() as u64,
        version: state_version(state),
        metadata_hash: page_hash(page),
        attestation: AttestationView {
            contributor_pubkey: public_key,
            antiflood_token: token,
            token_created_at: now,
            weight: SUBMITTED_WEIGHT,
        },
    }
}

fn shards_of_tokens(tokens: &Vec<String>) -> (shards: Vec<u8>)
    ensures
        shards@.len() == tokens@.len(),
        forall|i: int|
            0 <= i < tokens@.len() ==> #[trigger] shards@[i] == shard_of(
                encode_utf8(tokens@[i]@),
                SHARD_COUNT,
            ),
{
    let mut shards: Vec<u8> = Vec::new();
    let mut i: usize = 0;
    while i < tokens.len()
        invariant
            i <= tokens@.len(),
            shards@.len() == i,
            forall|j: int|
                0 <= j < i ==> #[trigger] shards@[j] == shard_of(
                    encode_utf8(tokens@[j]@),
                    SHARD_COUNT,
                ),
        decreases tokens@.len() - i,
    {
        shards.push(shard_for_word(tokens[i].as_str(), SHARD_COUNT));
        i += 1;
    }
    shards
}

fn entries_of_shard(
    tokens: &Vec<String>,
    shards: &Vec<u8>,
    shard: u8,
    contract_key: &str,
    snippet: &str,
) -> (entries: Vec<ShardDeltaEntry>)
    requires
        shards@.len() == tokens@.len(),
        forall|i: int|
            0 <= i < tokens@.len() ==> #[trigger] shards@[i] == shard_of(
                encode_utf8(tokens@[i]@),
                SHARD_COUNT,
            ),
    ensures
        shard_entries_view(entries@) == entries_for(
            texts(tokens@),
            shard,
            encode_utf8(contract_key@),
            encode_utf8(snippet@),
        ),
{
    let ghost all = texts(tokens@);
    let ghost key = encode_utf8(contract_key@);
    let ghost text = encode_utf8(snippet@);
    let mut entries: Vec<ShardDeltaEntry> = Vec::new();
    let mut i: usize = 0;
    proof {
        assert(all.subrange(0, 0) =~= Seq::<Seq<char>>::empty());
        assert(shard_entries_view(entries@) =~= Seq::<ShardDeltaEntryView>::empty());
    }
    while i < tokens.len()
        invariant
            i <= tokens@.len(),
            all == texts(tokens@),
            key == encode_utf8(contract_key@),
            text == encode_utf8(snippet@),
            shards@.len() == tokens@.len(),
            forall|j: int|
                0 <= j < tokens@.len() ==> #[trigger] shards@[j] == shard_of(
                    encode_utf8(tokens@[j]@),
                    SHARD_COUNT,
                ),
            shard_entries_view(entries@) == entries_for(
                all.subrange(0, i as int),
                shard,
                key,
                text,
            ),
        decreases tokens@.len() - i,
    {
        proof {
            let next = all.subrange(0, i + 1);
            assert(next.drop_last() =~= all.subrange(0, i as int));
            assert(next.last() == tokens@[i as int]@);
        }
        if shards[i] == shard {
            let entry = ShardDeltaEntry {
                word: tokens[i].clone(),
                contract_key: String::from_str(contract_key),
                snippet: String::from_str(snippet),
                tf_idf_score: BASE_SCORE,
            };
            let ghost before = shard_entries_view(entries@);
            entries.push(entry);
            assert(shard_entries_view(entries@) =~= before.push(entry@));
        }
        i += 1;
    }
    assert(all.subrange(0, tokens@.len() as int) =~= all);
    entries
}

/// Whether `deltas` are the shard deltas for a list of tokens: one for every
/// shard that a token belongs to, in the order of the shards, each with the
/// entries of its shard and with the token.
pub open spec fn are_shard_deltas(
    deltas: Seq<(u8, ShardDelta)>,
    tokens: Seq<Seq<char>>,
    contract_key: Seq<u8>,
    snippet: Seq<u8>,
    token: TokenView,
) -> bool {
    &&& forall|k: int|
        0 <= k < deltas.len() ==> {
            &&& (#[trigger] deltas[k]).0 < SHARD_COUNT
            &&& deltas[k].1@.entries == entries_for(tokens, deltas[k].0, contract_key, snippet)
            &&& deltas[k].1@.entries.len() > 0
            &&& deltas[k].1@.antiflood_token == token
        }
    &&& forall|k: int, l: int|
        0 <= k < l < deltas.len() ==> (#[trigger] deltas[k]).0 < (#[trigger] deltas[l]).0
    &&& forall|s: u8|
        s < SHARD_COUNT && (#[trigger] entries_for(tokens, s, contract_key, snippet)).len() > 0
            ==> exists|k: int| 0 <= k < deltas.len() && (#[trigger] deltas[k]).0 == s
}

/// Groups the terms of a document by their shards and builds one delta for
/// every shard that has a term.
pub fn build_shard_deltas(
    tokens: &Vec<String>,
    contract_key: &str,
    snippet: &str,
    token: &AntifloodToken,
) -> (deltas: Vec<(u8, ShardDelta)>)
    ensures
        are_shard_deltas(
            deltas@,
            texts(tokens@),
            encode_utf8(contract_key@),
            encode_utf8(snippet@),
            token@,
        ),
{
    let ghost all = texts(tokens@);
    let ghost key = encode_utf8(contract_key@);
    let ghost text = encode_utf8(snippet@);
    let shards = shards_of_tokens(tokens);
    let mut deltas: Vec<(u8, ShardDelta)> = Vec::new();
    let mut shard: u8 = 0;
    while shard < SHARD_COUNT
        invariant
            shard <= SHARD_COUNT,
            all == texts(tokens@),
            key == encode_utf8(contract_key@),
            text == encode_utf8(snippet@),
            shards@.len() == tokens@.len(),
            forall|j: int|
                0 <= j < tokens@.len() ==> #[trigger] shards@[j] == shard_of(
                    encode_utf8(tokens@[j]@),
                    SHARD_COUNT,
                ),
            forall|k: int|
                0 <= k < deltas@.len() ==> {
                    &&& (#[trigger] deltas@[k]).0 < shard
                    &&& deltas@[k].1@.entries == entries_for(all, deltas@[k].0, key, text)
                    &&& deltas@[k].1@.entries.len() > 0
                    &&& deltas@[k].1@.antiflood_token == token@
                },
            forall|k: int, l: int|
                0 <= k < l < deltas@.len() ==> (#[trigger] deltas@[k]).0 < (
                #[trigger] deltas@[l]).0,
            forall|s: u8|
                s < shard && (#[trigger] entries_for(all, s, key, text)).len() > 0
                    ==> exists|k: int| 0 <= k < deltas@.len() && (#[trigger] deltas@[k]).0 == s,
        decreases SHARD_COUNT - shard,
    {
        let entries = entries_of_shard(tokens, &shards, shard, contract_key, snippet);
        let ghost before = deltas@;
        if entries.len() > 0 {
            let delta = ShardDelta { entries, antiflood_token: clone_token(token) };
            deltas.push((shard, delta));
            proof {
                assert(deltas@[before.len() as int].0 == shard);
                assert forall|k: int| 0 <= k < before.len() implies #[trigger] deltas@[k]
                    == before[k] by {}
            }
        }
        proof {
            assert forall|s: u8|
                s < shard + 1 && (#[trigger] entries_for(all, s, key, text)).len() > 0 implies
                exists|k: int| 0 <= k < deltas@.len() && (#[trigger] deltas@[k]).0 == s by {
                if s < shard {
                    let k = choose|k: int| 0 <= k < before.len() && (#[trigger] before[k]).0 == s;
                    assert(deltas@[k] == before[k]);
                } else {
                    assert(deltas@[before.len() as int].0 == s);
                }
            }
        }
        shard += 1;
    }
    deltas
}

/// The entries for a shard are accepted by the shard, as long as no token is
/// empty.
pub proof fn lemma_entries_for_shard(
    tokens: Seq<Seq<char>>,
    shard: u8,
    contract_key: Seq<u8>,
    snippet: Seq<u8>,
)
    requires
        forall|i: int| 0 <= i < tokens.len() ==> (#[trigger] tokens[i]).len() > 0,
    ensures
        forall|i: int|
            0 <= i < entries_for(tokens, shard, contract_key, snippet).len()
                ==> shard_entry_acceptable(
                shard,
                #[trigger] entries_for(tokens, shard, contract_key, snippet)[i],
            ),
    decreases tokens.len(),
{
    if tokens.len() > 0 {
        let front = tokens.drop_last();
        assert forall|i: int| 0 <= i < front.len() implies (#[trigger] front[i]).len() > 0 by {
            assert(front[i] == tokens[i]);
        }
        lemma_entries_for_shard(front, shard, contract_key, snippet);
        let before = entries_for(front, shard, contract_key, snippet);
        let after = entries_for(tokens, shard, contract_key, snippet);
        assert(tokens[tokens.len() - 1].len() > 0);
        lemma_text_empty(tokens.last());
        assert forall|i: int| 0 <= i < after.len() implies shard_entry_acceptable(
            shard,
            #[trigger] after[i],
        ) by {
            if i < before.len() {
                assert(after[i] == before[i]);
            }
        }
    }
}

/// Every shard delta that is prepared from the tokens of a text passes the
/// validation of its shard, as long as the token is acceptable.
pub proof fn lemma_shard_deltas_acceptable(
    deltas: Seq<(u8, ShardDelta)>,
    text: Seq<char>,
    contract_key: Seq<u8>,
    snippet: Seq<u8>,
    token: TokenView,
    k: int,
)
    requires
        are_shard_deltas(deltas, tokens_of(text), contract_key, snippet, token),
        token_acceptable(token),
        0 <= k < deltas.len(),
    ensures
        shard_delta_acceptable(deltas[k].0, deltas[k].1@),
{
    lemma_tokens_kept(words_of(text));
    lemma_entries_for_shard(tokens_of(text), deltas[k].0, contract_key, snippet);
}

/// Builds the delta for the catalog that a contributor submits.
pub fn build_catalog_delta(
    contract_key: &str,
    state: &[u8],
    metadata: &ExtractedMetadata,
    public_key: &[u8; 32],
    token: &AntifloodToken,
    now: u64,
) -> (delta: CatalogDelta)
    ensures
        forall|page: Seq<char>|
            is_metadata_of(page, *metadata) ==> delta@ == contribution_delta(
                encode_utf8(contract_key@),
                state@,
                page,
                public_key@,
                token@,
                now,
            ),
{
    let title = match &metadata.title {
        Some(t) => t.clone(),
        None => String::new(),
    };
    let description = match &metadata.description {
        Some(d) => d.clone(),
        None => String::new(),
    };
    CatalogDelta {
        contract_key: String::from_str(contract_key),
        title,
        description,
        mini_snippet: metadata.mini_snippet.clone(),
        snippet: metadata.snippet.clone(),
        size_bytes: state.len() as u64,
        version: extract_version_from_state(state),
        metadata_hash: metadata.metadata_hash,
        attestation: Attestation {
            contributor_pubkey: *public_key,
            antiflood_token: clone_token(token),
            token_created_at: now,
            weight: SUBMITTED_WEIGHT,
        },
    }
}

/// Whether a catalog holds the variant of a contract.
pub fn is_known(catalog: &CatalogState, contract_key: &str, hash: &[u8; 32]) -> (known: bool)
    requires
        catalog.wf(),
    ensures
        known == already_known(catalog@, encode_utf8(contract_key@), hash@),
{
    let key = String::from_str(contract_key);
    proof {
        catalog.entries.lemma_wf();
        lemma_same_keys(catalog.entries.entries(), catalog@.entries, encode_utf8(contract_key@));
    }
    match catalog.entries.get(&key) {
        Some(entry) => {
            proof {
                let i = index_of_key(
                    catalog.entries.entries(),
                    encode_utf8(contract_key@),
                );
                assert(catalog.entries.entries()[i].1.wf());
                entry.hash_variants.lemma_wf();
                lemma_same_keys(entry.hash_variants.entries(), entry@.hash_variants, hash@);
            }
            entry.hash_variants.contains_key(hash)
        },
        None => false,
    }
}

/// Prepares what a contributor submits for the web container `state` of the
/// contract `contract_key`: nothing where the container holds no page, or
/// where the catalog holds the variant already; else the delta for the
/// catalog, the deltas for the shards of the terms of the snippet, and the
/// signature over the metadata hash.
pub fn prepare_contribution(
    contract_key: &str,
    state: &[u8],
    catalog: Option<&CatalogState>,
    secret_key: &[u8; 32],
    public_key: &[u8; 32],
    token: &AntifloodToken,
    now: u64,
) -> (contribution: Option<Contribution>)
    requires
        catalog is Some ==> catalog->0.wf(),
    ensures
        contribution is Some <==> index_page(state@) is Some && !(catalog is Some
            && already_known(
            catalog->0@,
            encode_utf8(contract_key@),
            page_hash(index_page(state@)->0),
        )),
        contribution is Some ==> ({
            let page = index_page(state@)->0;
            let made = contribution->0;
            &&& made.catalog_delta@ == contribution_delta(
                encode_utf8(contract_key@),
                state@,
                page,
                public_key@,
                token@,
                now,
            )
            &&& are_shard_deltas(
                made.shard_deltas@,
                tokens_of(page_canonical_snippet(page, SNIPPET_CHARS)),
                encode_utf8(contract_key@),
                encode_utf8(page_canonical_snippet(page, SNIPPET_CHARS)),
                token@,
            )
            &&& made.signature@ == ed25519_signature(secret_key@, page_hash(page))
        }),
{
    let metadata = match extract_metadata(state) {
        Some(metadata) => metadata,
        None => {
            return None;
        },
    };
    match catalog {
        Some(catalog) => {
            if is_known(catalog, contract_key, &metadata.metadata_hash) {
                return None;
            }
        },
        None => {},
    }
    let signature = sign_data(secret_key, metadata.metadata_hash.as_slice());
    let catalog_delta = build_catalog_delta(
        contract_key,
        state,
        &metadata,
        public_key,
        token,
        now,
    );
    let tokens = tokenize(metadata.snippet.as_str());
    let shard_deltas = build_shard_deltas(
        &tokens,
        contract_key,
        metadata.snippet.as_str(),
        token,
    );
    Some(Contribution { catalog_delta, shard_deltas, signature })
}

} // verus!
