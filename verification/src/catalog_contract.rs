//! The operations of the catalog contract on decoded values: validation of a
//! state and the update of a state by a list of updates.

use vstd::prelude::*;

use crate::bytes::bytes_equal;
use crate::catalog::{
    apply_delta_spec, apply_delta_to_state, by_pubkey, delta_acceptable, total_weight_of,
    validate_delta, weight_sum,
};
use crate::catalog_finalize::{finalize_state, is_finalization};
use crate::catalog_laws::{lemma_state_laid_out, lemma_update_stays_valid};
use crate::catalog_merge::{merge_catalog_states, merge_spec};
use crate::folding::fold_steps;
use crate::hashing::{metadata_digest, metadata_hash};
use crate::ordered_map::ByteKey;
use crate::sorting::distinct_by;
use crate::types::{
    attestations_view, deltas_view, Attestation, AttestationView, CatalogDelta, CatalogEntry,
    CatalogParameters, CatalogState, CatalogView, ContractError, DeltaView, EntryView, HashVariant,
    VariantView,
};

verus! {

/// No two attestations are by the same contributor.
pub open spec fn distinct_contributors(attestations: Seq<AttestationView>) -> bool {
    distinct_by(attestations, by_pubkey())
}

/// A variant stands under the hash of its own texts, holds each contributor
/// once, and records the total of its attestations' weights.
pub open spec fn variant_valid(hash: Seq<u8>, v: VariantView) -> bool {
    &&& hash == metadata_digest(v.title, v.description, v.mini_snippet)
    &&& distinct_contributors(v.attestations)
    &&& v.total_weight == weight_sum(v.attestations)
}

/// An entry names its contract and all its variants are valid.
pub open spec fn entry_valid(e: EntryView) -> bool {
    &&& e.contract_key.len() > 0
    &&& forall|j: int|
        0 <= j < e.hash_variants.len() ==> variant_valid(
            (#[trigger] e.hash_variants[j]).0,
            e.hash_variants[j].1,
        )
}

/// Every entry of the catalog is valid.
pub open spec fn state_valid(s: CatalogView) -> bool {
    forall|i: int| 0 <= i < s.entries.len() ==> entry_valid((#[trigger] s.entries[i]).1)
}

/// Whether each contributor occurs once among the attestations.
pub fn has_distinct_contributors(attestations: &Vec<Attestation>) -> (distinct: bool)
    ensures
        distinct == distinct_contributors(attestations_view(attestations@)),
{
    let ghost view = attestations_view(attestations@);
    let n: usize = attestations.len();
    let mut j: usize = 0;
    while j < n
        invariant
            j <= n,
            n == attestations@.len(),
            view == attestations_view(attestations@),
            forall|a: int, b: int|
                0 <= a < b < j ==> (#[trigger] view[a]).contributor_pubkey != (
                #[trigger] view[b]).contributor_pubkey,
        decreases n - j,
    {
        let mut i: usize = 0;
        while i < j
            invariant
                i <= j,
                j < n,
                n == attestations@.len(),
                view == attestations_view(attestations@),
                forall|a: int|
                    0 <= a < i ==> (#[trigger] view[a]).contributor_pubkey
                        != view[j as int].contributor_pubkey,
            decreases j - i,
        {
            if bytes_equal(
                attestations[i].contributor_pubkey.as_slice(),
                attestations[j].contributor_pubkey.as_slice(),
            ) {
                assert(view[i as int].contributor_pubkey == view[j as int].contributor_pubkey);
                return false;
            }
            i += 1;
        }
        j += 1;
    }
    true
}

fn check_variant(hash: &[u8; 32], variant: &HashVariant) -> (valid: bool)
    ensures
        valid == variant_valid(hash@, variant@),
{
    let expected = metadata_hash(
        variant.title.as_str(),
        variant.description.as_str(),
        variant.mini_snippet.as_str(),
    );
    if !bytes_equal(hash.as_slice(), expected.as_slice()) {
        return false;
    }
    if !has_distinct_contributors(&variant.attestations) {
        return false;
    }
    variant.total_weight == total_weight_of(&variant.attestations)
}

fn check_entry(entry: &CatalogEntry) -> (valid: bool)
    requires
        entry.wf(),
    ensures
        valid == entry_valid(entry@),
{
    if entry.contract_key.as_str().as_bytes().len() == 0 {
        return false;
    }
    let ghost variants = entry@.hash_variants;
    let n: usize = entry.hash_variants.len();
    let mut j: usize = 0;
    while j < n
        invariant
            j <= n,
            entry.wf(),
            n == entry.hash_variants.entries().len(),
            variants == entry@.hash_variants,
            forall|k: int|
                0 <= k < j ==> variant_valid((#[trigger] variants[k]).0, variants[k].1),
        decreases n - j,
    {
        let hash = entry.hash_variants.key_at(j);
        let variant = entry.hash_variants.value_at(j);
        if !check_variant(hash, variant) {
            assert(!variant_valid(variants[j as int].0, variants[j as int].1));
            return false;
        }
        j += 1;
    }
    true
}

/// Validates a catalog: every entry names its contract, every variant stands
/// under the hash of its texts, holds each contributor once and records the
/// total of its weights.
pub fn validate_state(state: &CatalogState) -> (result: Result<(), ContractError>)
    requires
        state.wf(),
    ensures
        result is Ok <==> state_valid(state@),
        result is Err ==> result->Err_0 == ContractError::InvalidState,
{
    let ghost entries = state@.entries;
    let n: usize = state.entries.len();
    let mut i: usize = 0;
    while i < n
        invariant
            i <= n,
            state.wf(),
            n == state.entries.entries().len(),
            entries == state@.entries,
            forall|k: int| 0 <= k < i ==> entry_valid((#[trigger] entries[k]).1),
        decreases n - i,
    {
        if !check_entry(state.entries.value_at(i)) {
            assert(!entry_valid(entries[i as int].1));
            return Err(ContractError::InvalidState);
        }
        i += 1;
    }
    Ok(())
}

/// One update as it reaches the catalog, decoded.
#[derive(Clone, Debug, PartialEq, Eq)]
pub enum CatalogUpdate {
    /// A single delta.
    Delta(CatalogDelta),
    /// Several deltas in one payload.
    DeltaBatch(Vec<CatalogDelta>),
    /// The whole state of a peer, to be merged.
    State(CatalogState),
    /// A payload that is neither a delta, a batch nor a state.
    Malformed,
    /// An update of a kind that the catalog does not take part in.
    Unrelated,
}

/// The value of a [`CatalogUpdate`].
pub enum UpdateView {
    Delta(DeltaView),
    DeltaBatch(Seq<DeltaView>),
    State(CatalogView),
    Malformed,
    Unrelated,
}

impl View for CatalogUpdate {
    type V = UpdateView;

    open spec fn view(&self) -> UpdateView {
        match self {
            CatalogUpdate::Delta(d) => UpdateView::Delta(d@),
            CatalogUpdate::DeltaBatch(ds) => UpdateView::DeltaBatch(deltas_view(ds@)),
            CatalogUpdate::State(s) => UpdateView::State(s@),
            CatalogUpdate::Malformed => UpdateView::Malformed,
            CatalogUpdate::Unrelated => UpdateView::Unrelated,
        }
    }
}

impl CatalogUpdate {
    /// A state that comes with the update has its maps in order.
    pub open spec fn wf(&self) -> bool {
        match self {
            CatalogUpdate::State(s) => s.wf(),
            _ => true,
        }
    }
}

/// The values of a list of updates.
pub open spec fn updates_view(s: Seq<CatalogUpdate>) -> Seq<UpdateView> {
    s.map_values(|u: CatalogUpdate| u@)
}

/// Every delta of the list passes validation.
pub open spec fn deltas_acceptable(deltas: Seq<DeltaView>) -> bool {
    forall|i: int| 0 <= i < deltas.len() ==> delta_acceptable(#[trigger] deltas[i])
}

/// Whether an update is taken: its deltas pass validation, the state of a
/// peer is valid, and its payload was understood.
pub open spec fn update_acceptable(u: UpdateView) -> bool {
    match u {
        UpdateView::Delta(d) => delta_acceptable(d),
        UpdateView::DeltaBatch(ds) => deltas_acceptable(ds),
        UpdateView::State(b) => state_valid(b),
        UpdateView::Malformed => false,
        UpdateView::Unrelated => true,
    }
}

/// Every update of the list is taken.
pub open spec fn updates_acceptable(updates: Seq<UpdateView>) -> bool {
    forall|i: int| 0 <= i < updates.len() ==> update_acceptable(#[trigger] updates[i])
}

/// Applying one delta to a catalog, as a step.
pub open spec fn delta_step() -> spec_fn(CatalogView, DeltaView) -> CatalogView {
    |s: CatalogView, d: DeltaView| apply_delta_spec(s, d)
}

/// The catalog after the deltas are applied in their order.
pub open spec fn apply_deltas(s: CatalogView, deltas: Seq<DeltaView>) -> CatalogView {
    fold_steps(s, deltas, delta_step())
}

/// The catalog after one update, before finalization.
pub open spec fn apply_update(s: CatalogView, u: UpdateView) -> CatalogView {
    match u {
        UpdateView::Delta(d) => apply_delta_spec(s, d),
        UpdateView::DeltaBatch(ds) => apply_deltas(s, ds),
        UpdateView::State(b) => merge_spec(s, b),
        UpdateView::Malformed => s,
        UpdateView::Unrelated => s,
    }
}

/// Applying one update to a catalog, as a step.
pub open spec fn update_step() -> spec_fn(CatalogView, UpdateView) -> CatalogView {
    |s: CatalogView, u: UpdateView| apply_update(s, u)
}

/// The catalog after the updates are applied in their order, before
/// finalization.
pub open spec fn apply_updates(s: CatalogView, updates: Seq<UpdateView>) -> CatalogView {
    fold_steps(s, updates, update_step())
}

fn apply_batch(state: &mut CatalogState, deltas: &Vec<CatalogDelta>) -> (taken: bool)
    requires
        old(state).wf(),
    ensures
        final(state).wf(),
        taken == deltas_acceptable(deltas_view(deltas@)),
        taken ==> final(state)@ == apply_deltas(old(state)@, deltas_view(deltas@)),
{
    let ghost s0 = state@;
    let ghost all = deltas_view(deltas@);
    let n: usize = deltas.len();
    let mut i: usize = 0;
    assert(all.subrange(0, 0) =~= Seq::empty());
    while i < n
        invariant
            i <= n,
            state.wf(),
            n == deltas@.len(),
            all == deltas_view(deltas@),
            forall|k: int| 0 <= k < i ==> delta_acceptable(#[trigger] all[k]),
            state@ == apply_deltas(s0, all.subrange(0, i as int)),
        decreases n - i,
    {
        if validate_delta(&deltas[i]).is_err() {
            assert(!delta_acceptable(all[i as int]));
            return false;
        }
        proof {
            let next = all.subrange(0, i + 1);
            assert(next.drop_last() =~= all.subrange(0, i as int));
            assert(next.last() == deltas@[i as int]@);
        }
        apply_delta_to_state(state, &deltas[i]);
        i += 1;
    }
    assert(all.subrange(0, n as int) =~= all);
    true
}

/// Updates the catalog: applies the updates in their order and finalizes.
/// One delta that fails validation, one state of a peer that is not valid,
/// or one payload that was not understood, refuses the whole call. The threshold of the parameters decides the
/// statuses.
pub fn update_state(
    parameters: &CatalogParameters,
    state: CatalogState,
    updates: &Vec<CatalogUpdate>,
) -> (result: Result<CatalogState, ContractError>)
    requires
        state.wf(),
        forall|i: int| 0 <= i < updates@.len() ==> (#[trigger] updates@[i]).wf(),
    ensures
        result is Ok <==> updates_acceptable(updates_view(updates@)),
        result is Ok ==> result->Ok_0.wf() && is_finalization(
            apply_updates(state@, updates_view(updates@)),
            parameters.confirmation_weight_threshold,
            result->Ok_0@,
        ),
        result is Ok && state_valid(state@) ==> state_valid(result->Ok_0@),
        result is Err ==> result->Err_0 == ContractError::InvalidUpdate,
{
    let ghost s0 = state@;
    proof {
        lemma_state_laid_out(state);
    }
    let mut current = state;
    let ghost all = updates_view(updates@);
    let n: usize = updates.len();
    let mut i: usize = 0;
    assert(all.subrange(0, 0) =~= Seq::empty());
    while i < n
        invariant
            i <= n,
            current.wf(),
            s0 == state@,
            n == updates@.len(),
            all == updates_view(updates@),
            forall|k: int| 0 <= k < updates@.len() ==> (#[trigger] updates@[k]).wf(),
            forall|k: int| 0 <= k < i ==> update_acceptable(#[trigger] all[k]),
            current@ == apply_updates(s0, all.subrange(0, i as int)),
        decreases n - i,
    {
        proof {
            let next = all.subrange(0, i + 1);
            assert(next.drop_last() =~= all.subrange(0, i as int));
            assert(next.last() == updates@[i as int]@);
            assert(updates@[i as int].wf());
        }
        match &updates[i] {
            CatalogUpdate::Delta(delta) => {
                if validate_delta(delta).is_err() {
                    assert(!update_acceptable(all[i as int]));
                    return Err(ContractError::InvalidUpdate);
                }
                apply_delta_to_state(&mut current, delta);
            },
            CatalogUpdate::DeltaBatch(deltas) => {
                if !apply_batch(&mut current, deltas) {
                    assert(!update_acceptable(all[i as int]));
                    return Err(ContractError::InvalidUpdate);
                }
            },
            CatalogUpdate::State(other) => {
                if validate_state(other).is_err() {
                    assert(!update_acceptable(all[i as int]));
                    return Err(ContractError::InvalidUpdate);
                }
                merge_catalog_states(&mut current, other);
            },
            CatalogUpdate::Malformed => {
                assert(!update_acceptable(all[i as int]));
                return Err(ContractError::InvalidUpdate);
            },
            CatalogUpdate::Unrelated => {},
        }
        i += 1;
    }
    assert(all.subrange(0, n as int) =~= all);
    finalize_state(&mut current, parameters.confirmation_weight_threshold);
    proof {
        if state_valid(s0) {
            lemma_update_stays_valid(
                s0,
                all,
                parameters.confirmation_weight_threshold,
                current@,
            );
        }
    }
    Ok(current)
}

} // verus!
