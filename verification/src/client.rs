//! What a client keeps while it discovers the contracts of its node, and how
//! that changes with what the node tells it.

use vstd::prelude::*;
use vstd::string::StringExecFns;
use vstd::utf8::encode_utf8;

use crate::bytes::{lemma_lex_irreflexive, lex_less};
use crate::directory::{
    apps_view, detect_contract_type, entry_or_first_sight, extraction_due, needs_extraction,
    seen_again, str_view, text_view, update_catalog_entry, AppEntry, AppView, ContractType,
    DiscoveryPhase,
};
use crate::discovery::{extract_title_from_state, shown_description, shown_title};
use crate::extraction::{extract_version_from_state, searched_page, state_version};
use crate::ordered_map::{
    assoc_get, assoc_put, has_key, is_rank, key_rank, keys_increasing, lemma_get_at,
    lemma_rank_exists, lemma_rank_unique, lemma_same_keys, ByteKey, OrderedMap,
};
use crate::text::str_equal;
use crate::web_container::is_web_container;

verus! {

/// A contract that the node reports: its key as text, the bytes of its
/// instance id, and the number of its subscribers.
#[derive(Clone, Debug, PartialEq, Eq)]
pub struct ContractSeen {
    pub key: String,
    pub instance_id: Vec<u8>,
    pub subscribers: u32,
}

/// The value of a [`ContractSeen`].
pub struct SeenView {
    pub key: Seq<u8>,
    pub instance_id: Seq<u8>,
    pub subscribers: u32,
}

impl View for ContractSeen {
    type V = SeenView;

    open spec fn view(&self) -> SeenView {
        SeenView {
            key: encode_utf8(self.key@),
            instance_id: self.instance_id@,
            subscribers: self.subscribers,
        }
    }
}

/// The values of the contracts that a node reports.
pub open spec fn seen_view(s: Seq<ContractSeen>) -> Seq<SeenView> {
    s.map_values(|c: ContractSeen| c@)
}

/// The state of the discovery: the kinds of the contracts that are known,
/// the contracts whose kind is still to be found, what is remembered of the
/// web applications, and how far the discovery has come.
#[derive(Clone, Debug, PartialEq, Eq)]
pub struct Discovery {
    pub contract_types: OrderedMap<String, ContractType>,
    pub type_check_queue: Vec<(String, Vec<u8>)>,
    pub app_catalog: OrderedMap<String, AppEntry>,
    pub phase: DiscoveryPhase,
    pub total_contracts: usize,
    pub types_checked: usize,
}

/// The value of a [`Discovery`].
pub struct DiscoveryView {
    pub types: Seq<(Seq<u8>, ContractType)>,
    pub queue: Seq<(Seq<u8>, Seq<u8>)>,
    pub apps: Seq<(Seq<u8>, AppView)>,
    pub phase: DiscoveryPhase,
    pub total_contracts: usize,
    pub types_checked: usize,
}

/// The values of the contracts that wait for their kind to be found.
pub open spec fn queue_view(s: Seq<(String, Vec<u8>)>) -> Seq<(Seq<u8>, Seq<u8>)> {
    s.map_values(|p: (String, Vec<u8>)| (encode_utf8(p.0@), p.1@))
}

impl View for Discovery {
    type V = DiscoveryView;

    open spec fn view(&self) -> DiscoveryView {
        DiscoveryView {
            types: self.contract_types.entries(),
            queue: queue_view(self.type_check_queue@),
            apps: apps_view(self.app_catalog.entries()),
            phase: self.phase,
            total_contracts: self.total_contracts,
            types_checked: self.types_checked,
        }
    }
}

impl Discovery {
    /// Both maps are in order.
    pub open spec fn wf(&self) -> bool {
        self.contract_types.wf() && self.app_catalog.wf()
    }

    /// The state before anything was discovered.
    pub fn new() -> (client: Self)
        ensures
            client.wf(),
            client@.types.len() == 0,
            client@.queue.len() == 0,
            client@.apps.len() == 0,
            client@.phase == DiscoveryPhase::Idle,
            client@.total_contracts == 0,
            client@.types_checked == 0,
    {
        Discovery {
            contract_types: OrderedMap::new(),
            type_check_queue: Vec::new(),
            app_catalog: OrderedMap::new(),
            phase: DiscoveryPhase::Idle,
            total_contracts: 0,
            types_checked: 0,
        }
    }
}

/// Whether a contract waits in the queue.
pub open spec fn queued(queue: Seq<(Seq<u8>, Seq<u8>)>, key: Seq<u8>) -> bool {
    exists|i: int| 0 <= i < queue.len() && (#[trigger] queue[i]).0 == key
}

/// The entries with the number of subscribers of one application set, where
/// the directory holds it.
pub open spec fn with_subscribers(apps: Seq<(Seq<u8>, AppView)>, key: Seq<u8>, subscribers: u32) -> Seq<
    (Seq<u8>, AppView),
> {
    match assoc_get(apps, key) {
        Some(entry) => assoc_put(apps, key, AppView { subscribers, ..entry }),
        None => apps,
    }
}

/// The queue with a reported contract at its end, unless its kind is known
/// or it waits already.
pub open spec fn enqueued(
    queue: Seq<(Seq<u8>, Seq<u8>)>,
    types: Seq<(Seq<u8>, ContractType)>,
    contract: SeenView,
) -> Seq<(Seq<u8>, Seq<u8>)> {
    if has_key(types, contract.key) || queued(queue, contract.key) {
        queue
    } else {
        queue.push((contract.key, contract.instance_id))
    }
}

/// The discovery after one reported contract was looked at.
pub open spec fn see_contract(d: DiscoveryView, contract: SeenView) -> DiscoveryView {
    DiscoveryView {
        apps: with_subscribers(d.apps, contract.key, contract.subscribers),
        queue: enqueued(d.queue, d.types, contract),
        ..d
    }
}

/// The discovery after the reported contracts were looked at, one after
/// another.
pub open spec fn see_contracts(d: DiscoveryView, contracts: Seq<SeenView>) -> DiscoveryView
    decreases contracts.len(),
{
    if contracts.len() == 0 {
        d
    } else {
        see_contract(see_contracts(d, contracts.drop_last()), contracts.last())
    }
}

/// The discovery after the node has reported its contracts: their number is
/// taken, the subscribers of the applications are brought up to date, the
/// new contracts are queued, and the kinds are being detected where any
/// contract waits.
pub open spec fn after_report(d: DiscoveryView, contracts: Seq<SeenView>) -> DiscoveryView {
    let seen = see_contracts(d, contracts);
    DiscoveryView {
        phase: if seen.queue.len() > 0 {
            DiscoveryPhase::DetectingTypes
        } else {
            DiscoveryPhase::FetchingContracts
        },
        total_contracts: contracts.len() as usize,
        ..seen
    }
}

fn is_queued(queue: &Vec<(String, Vec<u8>)>, key: &String) -> (found: bool)
    ensures
        found == queued(queue_view(queue@), key.key_bytes()),
{
    let ghost all = queue_view(queue@);
    let mut i: usize = 0;
    while i < queue.len()
        invariant
            i <= queue@.len(),
            all == queue_view(queue@),
            forall|j: int| 0 <= j < i ==> (#[trigger] all[j]).0 != key.key_bytes(),
        decreases queue@.len() - i,
    {
        proof {
            vstd::utf8::encode_utf8_decode_utf8(queue@[i as int].0@);
            vstd::utf8::encode_utf8_decode_utf8(key@);
        }
        if str_equal(queue[i].0.as_str(), key.as_str()) {
            assert(all[i as int].0 == key.key_bytes());
            return true;
        }
        i += 1;
    }
    false
}

/// Takes in what the node reports of its contracts.
pub fn note_contracts(client: &mut Discovery, contracts: &Vec<ContractSeen>)
    requires
        old(client).wf(),
    ensures
        final(client).wf(),
        final(client)@ == after_report(old(client)@, seen_view(contracts@)),
{
    let ghost d0 = client@;
    let ghost all = seen_view(contracts@);
    let n: usize = contracts.len();
    client.phase = DiscoveryPhase::FetchingContracts;
    client.total_contracts = n;
    let mut i: usize = 0;
    assert(all.subrange(0, 0) =~= Seq::empty());
    while i < n
        invariant
            i <= n,
            n == contracts@.len(),
            all == seen_view(contracts@),
            client.wf(),
            client.phase == DiscoveryPhase::FetchingContracts,
            client.total_contracts == n,
            client.types_checked == d0.types_checked,
            (DiscoveryView {
                phase: d0.phase,
                total_contracts: d0.total_contracts,
                ..client@
            }) == see_contracts(d0, all.subrange(0, i as int)),
        decreases n - i,
    {
        let contract = &contracts[i];
        let ghost before = client@;
        proof {
            let next = all.subrange(0, i + 1);
            assert(next.drop_last() =~= all.subrange(0, i as int));
            assert(next.last() == contract@);
            client.app_catalog.lemma_wf();
            lemma_same_keys(client.app_catalog.entries(), before.apps, contract.key.key_bytes());
        }
        if let Some(at) = client.app_catalog.position(&contract.key) {
            let ghost held = before.apps[at as int].1;
            let entry = client.app_catalog.value_at_mut(at);
            entry.subscribers = contract.subscribers;
            proof {
                let changed = AppView { subscribers: contract.subscribers, ..held };
                assert(entry@ == changed);
                assert(apps_view(client.app_catalog.entries()) =~= before.apps.update(
                    at as int,
                    (contract.key.key_bytes(), changed),
                ));
                assert(assoc_put(before.apps, contract.key.key_bytes(), changed)
                    =~= before.apps.update(at as int, (contract.key.key_bytes(), changed)));
                lemma_get_at(before.apps, at as int);
            }
        }
        if client.contract_types.position(&contract.key).is_none() && !is_queued(
            &client.type_check_queue,
            &contract.key,
        ) {
            client.type_check_queue.push((contract.key.clone(), contract.instance_id.clone()));
            assert(queue_view(client.type_check_queue@) =~= before.queue.push(
                (contract@.key, contract@.instance_id),
            ));
        }
        i += 1;
    }
    assert(all.subrange(0, n as int) =~= all);
    if client.type_check_queue.len() > 0 {
        client.phase = DiscoveryPhase::DetectingTypes;
    }
}

/// The title that the state of a web application shows, where its page can
/// be read.
pub open spec fn state_title(state: Seq<u8>) -> Option<Seq<char>> {
    match searched_page(state) {
        Some(page) => shown_title(page),
        None => None,
    }
}

/// The description that the state of a web application shows, where its page
/// can be read.
pub open spec fn state_description(state: Seq<u8>) -> Option<Seq<char>> {
    match searched_page(state) {
        Some(page) => shown_description(page),
        None => None,
    }
}

/// Whether the metadata of an application are extracted when its state
/// arrives.
pub open spec fn extracts(apps: Seq<(Seq<u8>, AppView)>, key: Seq<u8>, state: Seq<u8>) -> bool {
    match assoc_get(apps, key) {
        Some(entry) => extraction_due(
            entry.title is Some,
            entry.description is Some,
            state_version(state),
            entry.version,
        ),
        None => true,
    }
}

/// The directory after the state of a web application has arrived at `now`:
/// its size and version are taken, and its title and description where they
/// are extracted.
pub open spec fn app_noted(apps: Seq<(Seq<u8>, AppView)>, key: Seq<u8>, state: Seq<u8>, now: u64) -> Seq<
    (Seq<u8>, AppView),
> {
    let due = extracts(apps, key, state);
    assoc_put(
        apps,
        key,
        seen_again(
            entry_or_first_sight(apps, key, now),
            if due {
                state_title(state)
            } else {
                None
            },
            if due {
                state_description(state)
            } else {
                None
            },
            Some(state.len() as u64),
            state_version(state),
            due,
            now,
        ),
    )
}

/// A count with one more, held at the largest value.
pub open spec fn one_more(n: usize) -> usize {
    if n == usize::MAX {
        n
    } else {
        (n + 1) as usize
    }
}

/// The kind of a contract with this state.
pub open spec fn kind_of(state: Seq<u8>) -> ContractType {
    if is_web_container(state) {
        ContractType::WebApp
    } else {
        ContractType::Data
    }
}

/// The discovery after the state of a contract has arrived at `now`: its
/// kind is known, a web application is noted in the directory, and the
/// discovery is complete where no contract waits.
pub open spec fn after_state(d: DiscoveryView, key: Seq<u8>, state: Seq<u8>, now: u64) -> DiscoveryView {
    DiscoveryView {
        types: assoc_put(d.types, key, kind_of(state)),
        queue: d.queue,
        apps: if is_web_container(state) {
            app_noted(d.apps, key, state, now)
        } else {
            d.apps
        },
        phase: if d.queue.len() == 0 {
            DiscoveryPhase::Complete
        } else {
            d.phase
        },
        total_contracts: d.total_contracts,
        types_checked: one_more(d.types_checked),
    }
}

/// What is left to do when the state of a contract has arrived.
#[derive(Clone, Debug, PartialEq, Eq)]
pub struct Followup {
    /// The title is to be fetched from the node, for a state of this version
    /// and size.
    pub fetch_title: Option<(Option<u64>, u64)>,
    /// The directory is to be saved.
    pub save_cache: bool,
    /// The application is to be contributed to the index.
    pub contribute: bool,
}

/// What is left to do for a state that has arrived: nothing for other data;
/// for a web application the directory is saved and the application is
/// contributed, and its title is fetched where the directory holds none.
pub open spec fn followup_of(d: DiscoveryView, key: Seq<u8>, state: Seq<u8>) -> Followup {
    let untitled = match assoc_get(d.apps, key) {
        Some(entry) => entry.title is None,
        None => true,
    };
    Followup {
        fetch_title: if is_web_container(state) && untitled {
            Some((state_version(state), state.len() as u64))
        } else {
            None
        },
        save_cache: is_web_container(state),
        contribute: is_web_container(state),
    }
}

fn borrowed(text: &Option<String>) -> (part: Option<&str>)
    ensures
        str_view(part) == text_view(*text),
{
    match text {
        Some(t) => Some(t.as_str()),
        None => None,
    }
}

/// Takes in the state of a contract that has arrived at `now`, and says
/// what is left to do.
pub fn note_state(client: &mut Discovery, key: &str, state: &[u8], now: u64) -> (followup: Followup)
    requires
        old(client).wf(),
    ensures
        final(client).wf(),
        final(client)@ == after_state(old(client)@, encode_utf8(key@), state@, now),
        followup == followup_of(old(client)@, encode_utf8(key@), state@),
{
    let ghost d0 = client@;
    let owned = String::from_str(key);
    let ghost kb = owned.key_bytes();
    let kind = detect_contract_type(state);
    let mut followup = Followup { fetch_title: None, save_cache: false, contribute: false };
    if let ContractType::WebApp = kind {
        let size: u64 = state.len() as u64;
        let version = extract_version_from_state(state);
        proof {
            client.app_catalog.lemma_wf();
            lemma_same_keys(client.app_catalog.entries(), d0.apps, kb);
        }
        let (has_title, has_description, cached_version) = match client.app_catalog.get(&owned) {
            Some(entry) => (entry.title.is_some(), entry.description.is_some(), entry.version),
            None => (false, false, None),
        };
        if needs_extraction(has_title, has_description, version, cached_version) {
            if !has_title {
                followup.fetch_title = Some((version, size));
            }
            let (title, description) = extract_title_from_state(state);
            update_catalog_entry(
                &mut client.app_catalog,
                key,
                borrowed(&title),
                borrowed(&description),
                Some(size),
                version,
                true,
                now,
            );
        } else {
            update_catalog_entry(
                &mut client.app_catalog,
                key,
                None,
                None,
                Some(size),
                version,
                false,
                now,
            );
        }
        followup.save_cache = true;
        followup.contribute = true;
    }
    client.contract_types.insert(owned, kind);
    if client.types_checked < usize::MAX {
        client.types_checked = client.types_checked + 1;
    }
    if client.type_check_queue.len() == 0 {
        client.phase = DiscoveryPhase::Complete;
    }
    followup
}

/// The number of contracts whose kind is asked for at one time, at most.
pub const TYPE_CHECK_BATCH_SIZE: usize = 10;

/// The queue and the instance ids to ask for, after at most `budget`
/// contracts were taken from the front of the queue. A contract whose kind
/// is known by now, or whose instance id is not of 32 bytes, is passed over.
pub open spec fn polled(
    queue: Seq<(Seq<u8>, Seq<u8>)>,
    types: Seq<(Seq<u8>, ContractType)>,
    budget: nat,
) -> (Seq<(Seq<u8>, Seq<u8>)>, Seq<Seq<u8>>)
    decreases budget,
{
    if budget == 0 || queue.len() == 0 {
        (queue, Seq::empty())
    } else {
        let (rest, ids) = polled(queue.drop_first(), types, (budget - 1) as nat);
        if !has_key(types, queue[0].0) && queue[0].1.len() == 32 {
            (rest, seq![queue[0].1] + ids)
        } else {
            (rest, ids)
        }
    }
}

/// The instance ids in a list of arrays.
pub open spec fn ids_view(ids: Seq<[u8; 32]>) -> Seq<Seq<u8>> {
    ids.map_values(|id: [u8; 32]| id@)
}

fn id_of(bytes: &Vec<u8>) -> (id: Option<[u8; 32]>)
    ensures
        id is Some <==> bytes@.len() == 32,
        id is Some ==> id->0@ == bytes@,
{
    if bytes.len() != 32 {
        return None;
    }
    let mut id = [0u8; 32];
    let mut i: usize = 0;
    while i < 32
        invariant
            i <= 32,
            bytes@.len() == 32,
            forall|j: int| 0 <= j < i ==> id@[j] == bytes@[j],
        decreases 32 - i,
    {
        id[i] = bytes[i];
        i += 1;
    }
    assert(id@ =~= bytes@);
    Some(id)
}

/// Takes the next contracts from the queue and gives the instance ids whose
/// states are to be asked for.
pub fn next_type_checks(client: &mut Discovery) -> (ids: Vec<[u8; 32]>)
    requires
        old(client).wf(),
    ensures
        final(client).wf(),
        final(client)@.queue == polled(
            old(client)@.queue,
            old(client)@.types,
            TYPE_CHECK_BATCH_SIZE as nat,
        ).0,
        ids_view(ids@) == polled(
            old(client)@.queue,
            old(client)@.types,
            TYPE_CHECK_BATCH_SIZE as nat,
        ).1,
        final(client)@.types == old(client)@.types,
        final(client)@.apps == old(client)@.apps,
        final(client)@.phase == old(client)@.phase,
        final(client)@.total_contracts == old(client)@.total_contracts,
        final(client)@.types_checked == old(client)@.types_checked,
{
    let ghost q0 = client@.queue;
    let ghost types = client@.types;
    let mut ids: Vec<[u8; 32]> = Vec::new();
    let mut taken: usize = 0;
    assert(ids_view(ids@) =~= Seq::<Seq<u8>>::empty());
    while taken < TYPE_CHECK_BATCH_SIZE && client.type_check_queue.len() > 0
        invariant
            taken <= TYPE_CHECK_BATCH_SIZE,
            client.wf(),
            client@.types == types,
            client@.apps == old(client)@.apps,
            client.phase == old(client).phase,
            client.total_contracts == old(client).total_contracts,
            client.types_checked == old(client).types_checked,
            polled(q0, types, TYPE_CHECK_BATCH_SIZE as nat) == ({
                let (rest, more) = polled(
                    client@.queue,
                    types,
                    (TYPE_CHECK_BATCH_SIZE - taken) as nat,
                );
                (rest, ids_view(ids@) + more)
            }),
        decreases TYPE_CHECK_BATCH_SIZE - taken,
    {
        let ghost queue = client@.queue;
        let ghost before = ids_view(ids@);
        let (key, id_bytes) = client.type_check_queue.remove(0);
        proof {
            assert(client@.queue =~= queue.drop_first());
            assert(queue[0] == (key.key_bytes(), id_bytes@));
            let (rest, more) = polled(
                queue.drop_first(),
                types,
                (TYPE_CHECK_BATCH_SIZE - taken - 1) as nat,
            );
            assert(before + (seq![id_bytes@] + more) =~= before.push(id_bytes@) + more);
        }
        if client.contract_types.position(&key).is_none() {
            if let Some(id) = id_of(&id_bytes) {
                ids.push(id);
                assert(ids_view(ids@) =~= before.push(id_bytes@));
            }
        }
        taken += 1;
    }
    proof {
        let (rest, more) = polled(client@.queue, types, (TYPE_CHECK_BATCH_SIZE - taken) as nat);
        assert(more =~= Seq::<Seq<u8>>::empty());
        assert(ids_view(ids@) + more =~= ids_view(ids@));
    }
    ids
}

/// The kinds of the contracts, after the directory was read back: every
/// application that it remembers is a web application.
pub open spec fn restored_types(apps: Seq<(Seq<u8>, AppView)>) -> Seq<(Seq<u8>, ContractType)> {
    apps.map_values(|p: (Seq<u8>, AppView)| (p.0, ContractType::WebApp))
}

/// An application whose title is to be fetched: its key, and the version and
/// the size of its state as far as they are known.
pub type Untitled = (String, Option<u64>, Option<u64>);

/// The value of an [`Untitled`].
pub type UntitledView = (Seq<u8>, Option<u64>, Option<u64>);

/// The values of a list of applications without a title.
pub open spec fn untitled_view(s: Seq<Untitled>) -> Seq<UntitledView> {
    s.map_values(|u: Untitled| (u.0.key_bytes(), u.1, u.2))
}

/// The applications of the directory that have no title, in the order of
/// their keys.
pub open spec fn untitled_apps(apps: Seq<(Seq<u8>, AppView)>) -> Seq<UntitledView>
    decreases apps.len(),
{
    if apps.len() == 0 {
        Seq::empty()
    } else {
        let rest = untitled_apps(apps.drop_last());
        let entry = apps.last().1;
        if entry.title is None {
            rest.push((apps.last().0, entry.version, entry.size_bytes))
        } else {
            rest
        }
    }
}

/// Starts the discovery from a directory that was read back, with the number
/// of contracts that was seen last, if any was. Gives the applications whose
/// titles are to be fetched.
pub fn restore(catalog: OrderedMap<String, AppEntry>, cached_total: usize) -> (restored: (
    Discovery,
    Vec<Untitled>,
))
    requires
        catalog.wf(),
    ensures
        restored.0.wf(),
        restored.0@ == (DiscoveryView {
            types: restored_types(apps_view(catalog.entries())),
            queue: Seq::empty(),
            apps: apps_view(catalog.entries()),
            phase: DiscoveryPhase::Idle,
            total_contracts: cached_total,
            types_checked: catalog.entries().len() as usize,
        }),
        untitled_view(restored.1@) == untitled_apps(apps_view(catalog.entries())),
{
    let ghost apps = apps_view(catalog.entries());
    let mut types: OrderedMap<String, ContractType> = OrderedMap::new();
    let mut untitled: Vec<Untitled> = Vec::new();
    let n: usize = catalog.len();
    let mut i: usize = 0;
    proof {
        catalog.lemma_wf();
        assert(apps.subrange(0, 0) =~= Seq::empty());
        assert(untitled_view(untitled@) =~= Seq::empty());
        assert(types.entries() =~= restored_types(apps.subrange(0, 0)));
    }
    while i < n
        invariant
            i <= n,
            catalog.wf(),
            n == catalog.entries().len(),
            apps == apps_view(catalog.entries()),
            keys_increasing(catalog.entries()),
            types.wf(),
            types.entries() == restored_types(apps.subrange(0, i as int)),
            untitled_view(untitled@) == untitled_apps(apps.subrange(0, i as int)),
        decreases n - i,
    {
        let key = catalog.key_at(i);
        let entry = catalog.value_at(i);
        let ghost before = types.entries();
        let ghost listed = untitled_view(untitled@);
        proof {
            let next = apps.subrange(0, i + 1);
            assert(next.drop_last() =~= apps.subrange(0, i as int));
            assert(next.last() == (key.key_bytes(), entry@));
            assert forall|j: int| 0 <= j < before.len() implies lex_less(
                (#[trigger] before[j]).0,
                key.key_bytes(),
            ) by {
                assert(before[j].0 == catalog.entries()[j].0);
            }
            lemma_put_last(before, key.key_bytes(), ContractType::WebApp);
        }
        types.insert(key.clone(), ContractType::WebApp);
        assert(types.entries() =~= restored_types(apps.subrange(0, i + 1)));
        if entry.title.is_none() {
            untitled.push((key.clone(), entry.version, entry.size_bytes));
            assert(untitled_view(untitled@) =~= listed.push(
                (key.key_bytes(), entry@.version, entry@.size_bytes),
            ));
        }
        i += 1;
    }
    assert(apps.subrange(0, n as int) =~= apps);
    let client = Discovery {
        contract_types: types,
        type_check_queue: Vec::new(),
        app_catalog: catalog,
        phase: DiscoveryPhase::Idle,
        total_contracts: cached_total,
        types_checked: n,
    };
    assert(client@.queue =~= Seq::empty());
    (client, untitled)
}

proof fn lemma_put_last<V>(s: Seq<(Seq<u8>, V)>, key: Seq<u8>, value: V)
    requires
        keys_increasing(s),
        forall|j: int| 0 <= j < s.len() ==> lex_less((#[trigger] s[j]).0, key),
    ensures
        assoc_put(s, key, value) == s.push((key, value)),
{
    assert(!has_key(s, key)) by {
        if has_key(s, key) {
            let j = choose|j: int| 0 <= j < s.len() && (#[trigger] s[j]).0 == key;
            lemma_lex_irreflexive(key);
        }
    }
    assert(is_rank(s, key, s.len() as int));
    lemma_rank_exists(s, key);
    lemma_rank_unique(s, key, key_rank(s, key), s.len() as int);
    assert(s.insert(s.len() as int, (key, value)) =~= s.push((key, value)));
}

/// How far a contribution has come.
#[derive(Clone, Debug, PartialEq, Eq)]
pub enum ContributionStatus {
    Submitted,
    Confirmed,
    Failed(String),
}

/// The value of a [`ContributionStatus`].
pub enum StatusView {
    Submitted,
    Confirmed,
    Failed(Seq<char>),
}

impl View for ContributionStatus {
    type V = StatusView;

    open spec fn view(&self) -> StatusView {
        match self {
            ContributionStatus::Submitted => StatusView::Submitted,
            ContributionStatus::Confirmed => StatusView::Confirmed,
            ContributionStatus::Failed(reason) => StatusView::Failed(reason@),
        }
    }
}

/// One contribution that was attempted.
#[derive(Clone, Debug, PartialEq, Eq)]
pub struct ContributionRecord {
    pub contract_key: String,
    pub timestamp: u64,
    pub status: ContributionStatus,
}

/// The value of a [`ContributionRecord`].
pub struct RecordView {
    pub contract_key: Seq<char>,
    pub timestamp: u64,
    pub status: StatusView,
}

impl View for ContributionRecord {
    type V = RecordView;

    open spec fn view(&self) -> RecordView {
        RecordView {
            contract_key: self.contract_key@,
            timestamp: self.timestamp,
            status: self.status@,
        }
    }
}

/// The values of the contributions that were attempted.
pub open spec fn history_view(s: Seq<ContributionRecord>) -> Seq<RecordView> {
    s.map_values(|r: ContributionRecord| r@)
}

/// Adds a contribution to the history.
pub fn record_contribution(
    history: &mut Vec<ContributionRecord>,
    contract_key: &str,
    timestamp: u64,
    status: ContributionStatus,
)
    ensures
        history_view(final(history)@) == history_view(old(history)@).push(
            RecordView { contract_key: contract_key@, timestamp, status: status@ },
        ),
{
    let ghost before = history_view(history@);
    history.push(ContributionRecord { contract_key: String::from_str(contract_key), timestamp, status });
    assert(history_view(history@) =~= before.push(
        RecordView { contract_key: contract_key@, timestamp, status: status@ },
    ));
}

/// The place of the last contribution that is submitted and not yet
/// confirmed, or -1.
pub open spec fn last_submitted(history: Seq<RecordView>) -> int
    decreases history.len(),
{
    if history.len() == 0 {
        -1
    } else if history.last().status is Submitted {
        history.len() - 1
    } else {
        last_submitted(history.drop_last())
    }
}

/// The history after the index has accepted an update: the last contribution
/// that was submitted is confirmed.
pub open spec fn confirmed(history: Seq<RecordView>) -> Seq<RecordView> {
    let at = last_submitted(history);
    if at < 0 {
        history
    } else {
        history.update(at, RecordView { status: StatusView::Confirmed, ..history[at] })
    }
}

proof fn lemma_last_submitted(history: Seq<RecordView>, from: int)
    requires
        0 <= from <= history.len(),
        forall|j: int| from <= j < history.len() ==> !((#[trigger] history[j]).status is Submitted),
    ensures
        last_submitted(history) == last_submitted(history.subrange(0, from)),
        -1 <= last_submitted(history) < from,
        last_submitted(history) >= 0 ==> history[last_submitted(history)].status is Submitted,
    decreases history.len(),
{
    if from < history.len() {
        let front = history.drop_last();
        assert(front.subrange(0, from) =~= history.subrange(0, from));
        assert forall|j: int| from <= j < front.len() implies !((#[trigger] front[j]).status
            is Submitted) by {
            assert(front[j] == history[j]);
        }
        assert(!(history[history.len() - 1].status is Submitted));
        lemma_last_submitted(front, from);
    } else {
        assert(history.subrange(0, from) =~= history);
        if history.len() > 0 {
            if !(history.last().status is Submitted) {
                let front = history.drop_last();
                lemma_last_submitted(front, front.len() as int);
            }
        }
    }
}

/// Marks the last contribution that was submitted as confirmed.
pub fn confirm_contribution(history: &mut Vec<ContributionRecord>)
    ensures
        history_view(final(history)@) == confirmed(history_view(old(history)@)),
{
    let ghost all = history_view(history@);
    let mut i: usize = history.len();
    while i > 0
        invariant
            i <= history@.len(),
            all == history_view(history@),
            history@ == old(history)@,
            forall|j: int| i <= j < all.len() ==> !((#[trigger] all[j]).status is Submitted),
        decreases i,
    {
        i -= 1;
        if let ContributionStatus::Submitted = history[i].status {
            proof {
                lemma_last_submitted(all, i + 1);
                let head = all.subrange(0, i + 1);
                assert(head.last() == all[i as int]);
                assert(all[i as int].status is Submitted);
            }
            history[i].status = ContributionStatus::Confirmed;
            assert(history_view(history@) =~= all.update(
                i as int,
                RecordView { status: StatusView::Confirmed, ..all[i as int] },
            ));
            return;
        }
    }
    proof {
        lemma_last_submitted(all, 0);
    }
}

/// The kinds without those of the web applications.
pub open spec fn without_web_apps(types: Seq<(Seq<u8>, ContractType)>) -> Seq<(Seq<u8>, ContractType)>
    decreases types.len(),
{
    if types.len() == 0 {
        Seq::empty()
    } else {
        let rest = without_web_apps(types.drop_last());
        if types.last().1 == ContractType::WebApp {
            rest
        } else {
            rest.push(types.last())
        }
    }
}

proof fn lemma_without_web_apps(types: Seq<(Seq<u8>, ContractType)>)
    requires
        keys_increasing(types),
    ensures
        keys_increasing(without_web_apps(types)),
        forall|j: int|
            0 <= j < without_web_apps(types).len() ==> exists|i: int|
                0 <= i < types.len() && types[i] == #[trigger] without_web_apps(types)[j],
    decreases types.len(),
{
    if types.len() > 0 {
        let front = types.drop_last();
        let rest = without_web_apps(front);
        lemma_without_web_apps(front);
        let kept = without_web_apps(types);
        assert forall|j: int| 0 <= j < kept.len() implies exists|i: int|
            0 <= i < types.len() && types[i] == #[trigger] kept[j] by {
            if j < rest.len() {
                let i = choose|i: int| 0 <= i < front.len() && front[i] == rest[j];
                assert(types[i] == kept[j]);
            } else {
                assert(types[types.len() - 1] == kept[j]);
            }
        }
        assert forall|a: int, b: int| 0 <= a < b < kept.len() implies lex_less(
            (#[trigger] kept[a]).0,
            (#[trigger] kept[b]).0,
        ) by {
            if b == rest.len() {
                let i = choose|i: int| 0 <= i < front.len() && front[i] == rest[a];
                assert(lex_less(types[i].0, types[types.len() - 1].0));
            }
        }
    }
}

/// Forgets the kinds of the web applications, so that their states are asked
/// for again when the node next reports them. Gives the number of them.
pub fn retrigger_contributions(client: &mut Discovery) -> (count: usize)
    requires
        old(client).wf(),
    ensures
        final(client).wf(),
        final(client)@ == (DiscoveryView {
            types: without_web_apps(old(client)@.types),
            ..old(client)@
        }),
        count == old(client)@.types.len() - final(client)@.types.len(),
{
    let ghost types = client@.types;
    let mut kept: OrderedMap<String, ContractType> = OrderedMap::new();
    let n: usize = client.contract_types.len();
    let mut i: usize = 0;
    proof {
        client.contract_types.lemma_wf();
        assert(types.subrange(0, 0) =~= Seq::empty());
    }
    while i < n
        invariant
            i <= n,
            client.wf(),
            client@ == old(client)@,
            types == client@.types,
            n == types.len(),
            keys_increasing(types),
            kept.wf(),
            kept.entries() == without_web_apps(types.subrange(0, i as int)),
            kept.entries().len() <= i,
        decreases n - i,
    {
        let key = client.contract_types.key_at(i);
        let kind = client.contract_types.value_at(i);
        let ghost before = kept.entries();
        proof {
            let head = types.subrange(0, i as int);
            let next = types.subrange(0, i + 1);
            assert(next.drop_last() =~= head);
            assert(next.last() == (key.key_bytes(), *kind));
            lemma_without_web_apps(head);
            assert forall|j: int| 0 <= j < before.len() implies lex_less(
                (#[trigger] before[j]).0,
                key.key_bytes(),
            ) by {
                let k = choose|k: int| 0 <= k < head.len() && head[k] == before[j];
                assert(lex_less(types[k].0, types[i as int].0));
            }
            lemma_put_last(before, key.key_bytes(), *kind);
        }
        match kind {
            ContractType::WebApp => {},
            _ => {
                kept.insert(key.clone(), *kind);
            },
        }
        i += 1;
    }
    assert(types.subrange(0, n as int) =~= types);
    let count: usize = n - kept.len();
    client.contract_types = kept;
    count
}

} // verus!
