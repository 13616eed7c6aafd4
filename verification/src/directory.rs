//! The directory of web applications that a client has discovered: what it
//! remembers of each, and how it lists them.

use vstd::prelude::*;
use vstd::string::StringExecFns;
use vstd::utf8::{decode_utf8, encode_utf8};

use crate::bytes::{find_bytes, find_from, lex_less, push_bytes};
use crate::ordered_map::{
    assoc_get, assoc_put, has_key, keys_increasing, lemma_get_at, lemma_put, lemma_put_elements,
    lemma_same_keys, ByteKey, OrderedMap,
};
use crate::search::{attestation_total, option_view, totals_of};
use crate::sorting::{
    insert_by, key_fn, lemma_sort_ordered, ordered_by, sort_by, sort_by_key, views, Keyed,
};
use crate::text::{to_lowercase, unicode_lowercase};
use crate::types::{CatalogState, CatalogView};
use crate::web_container::{detect_web_container, is_web_container};

verus! {

/// What kind of contract a discovered contract is.
#[derive(Clone, Copy, Debug, PartialEq, Eq)]
pub enum ContractType {
    Unknown,
    WebApp,
    Data,
}

impl Default for ContractType {
    fn default() -> (kind: Self)
        ensures
            kind == ContractType::Unknown,
    {
        ContractType::Unknown
    }
}

/// How far the discovery of contracts has come.
#[derive(Clone, Copy, Debug, PartialEq, Eq)]
pub enum DiscoveryPhase {
    Idle,
    FetchingContracts,
    DetectingTypes,
    Complete,
}

impl Default for DiscoveryPhase {
    fn default() -> (phase: Self)
        ensures
            phase == DiscoveryPhase::Idle,
    {
        DiscoveryPhase::Idle
    }
}

/// Tells a web application from other data by the layout of its state.
pub fn detect_contract_type(state: &[u8]) -> (kind: ContractType)
    ensures
        kind == (if is_web_container(state@) {
            ContractType::WebApp
        } else {
            ContractType::Data
        }),
{
    if detect_web_container(state) {
        ContractType::WebApp
    } else {
        ContractType::Data
    }
}

/// What the directory remembers of one web application.
#[derive(Clone, Debug, PartialEq, Eq)]
pub struct AppEntry {
    pub title: Option<String>,
    pub description: Option<String>,
    pub first_seen: u64,
    pub last_seen: u64,
    pub size_bytes: Option<u64>,
    pub subscribers: u32,
    pub version: Option<u64>,
}

/// The value of an [`AppEntry`].
pub struct AppView {
    pub title: Option<Seq<char>>,
    pub description: Option<Seq<char>>,
    pub first_seen: u64,
    pub last_seen: u64,
    pub size_bytes: Option<u64>,
    pub subscribers: u32,
    pub version: Option<u64>,
}

/// The value of a text that may not be there.
pub open spec fn text_view(text: Option<String>) -> Option<Seq<char>> {
    match text {
        Some(t) => Some(t@),
        None => None,
    }
}

/// The value of a borrowed text that may not be there.
pub open spec fn str_view(text: Option<&str>) -> Option<Seq<char>> {
    match text {
        Some(t) => Some(t@),
        None => None,
    }
}

impl View for AppEntry {
    type V = AppView;

    open spec fn view(&self) -> AppView {
        AppView {
            title: text_view(self.title),
            description: text_view(self.description),
            first_seen: self.first_seen,
            last_seen: self.last_seen,
            size_bytes: self.size_bytes,
            subscribers: self.subscribers,
            version: self.version,
        }
    }
}

/// The values of the entries of a directory, in the order of their keys.
pub open spec fn apps_view(s: Seq<(Seq<u8>, AppEntry)>) -> Seq<(Seq<u8>, AppView)> {
    s.map_values(|p: (Seq<u8>, AppEntry)| (p.0, p.1@))
}

/// The entry of an application that is seen for the first time at `now`.
pub open spec fn first_sight(now: u64) -> AppView {
    AppView {
        title: None,
        description: None,
        first_seen: now,
        last_seen: now,
        size_bytes: None,
        subscribers: 0,
        version: None,
    }
}

/// One of two values that may not be there: the new one where it is there,
/// else the old one.
pub open spec fn newer<A>(new: Option<A>, old: Option<A>) -> Option<A> {
    if new is Some {
        new
    } else {
        old
    }
}

/// An entry after the application was seen again at `now`. What was freshly
/// extracted replaces title and description, also where it found none; what
/// was not only fills in. Size and version are taken where they are known.
pub open spec fn seen_again(
    entry: AppView,
    title: Option<Seq<char>>,
    description: Option<Seq<char>>,
    size: Option<u64>,
    version: Option<u64>,
    extracted: bool,
    now: u64,
) -> AppView {
    AppView {
        title: if extracted {
            title
        } else {
            newer(title, entry.title)
        },
        description: if extracted {
            description
        } else {
            newer(description, entry.description)
        },
        first_seen: entry.first_seen,
        last_seen: now,
        size_bytes: newer(size, entry.size_bytes),
        subscribers: entry.subscribers,
        version: newer(version, entry.version),
    }
}

/// The entry under `key`, or that of a first sight at `now`.
pub open spec fn entry_or_first_sight(apps: Seq<(Seq<u8>, AppView)>, key: Seq<u8>, now: u64) -> AppView {
    match assoc_get(apps, key) {
        Some(entry) => entry,
        None => first_sight(now),
    }
}

fn copy_text(text: Option<&str>) -> (copy: Option<String>)
    ensures
        text_view(copy) == str_view(text),
{
    match text {
        Some(t) => Some(String::from_str(t)),
        None => None,
    }
}

/// Records in the directory that the application `key` was seen at `now`,
/// with what is known of it.
pub fn update_catalog_entry(
    catalog: &mut OrderedMap<String, AppEntry>,
    key: &str,
    title: Option<&str>,
    description: Option<&str>,
    size: Option<u64>,
    version: Option<u64>,
    extracted: bool,
    now: u64,
)
    requires
        old(catalog).wf(),
    ensures
        final(catalog).wf(),
        apps_view(final(catalog).entries()) == assoc_put(
            apps_view(old(catalog).entries()),
            encode_utf8(key@),
            seen_again(
                entry_or_first_sight(
                    apps_view(old(catalog).entries()),
                    encode_utf8(key@),
                    now,
                ),
                str_view(title),
                str_view(description),
                size,
                version,
                extracted,
                now,
            ),
        ),
{
    let owned = String::from_str(key);
    let ghost s0 = catalog.entries();
    let ghost v0 = apps_view(s0);
    let ghost kb = owned.key_bytes();
    proof {
        catalog.lemma_wf();
        lemma_same_keys(s0, v0, kb);
    }
    let at: usize = match catalog.position(&owned) {
        Some(at) => at,
        None => catalog.insert(
            owned,
            AppEntry {
                title: None,
                description: None,
                first_seen: now,
                last_seen: now,
                size_bytes: None,
                subscribers: 0,
                version: None,
            },
        ),
    };
    let ghost v1 = apps_view(catalog.entries());
    let ghost before = entry_or_first_sight(v0, kb, now);
    assert(v1[at as int] == (kb, before));
    let entry = catalog.value_at_mut(at);
    if extracted {
        entry.title = copy_text(title);
        entry.description = copy_text(description);
    } else {
        if title.is_some() {
            entry.title = copy_text(title);
        }
        if description.is_some() {
            entry.description = copy_text(description);
        }
    }
    if size.is_some() {
        entry.size_bytes = size;
    }
    if version.is_some() {
        entry.version = version;
    }
    entry.last_seen = now;
    proof {
        let after = seen_again(
            before,
            str_view(title),
            str_view(description),
            size,
            version,
            extracted,
            now,
        );
        assert(entry@ == after);
        assert(apps_view(catalog.entries()) =~= v1.update(at as int, (kb, after)));
        assert(assoc_put(v0, kb, after) =~= v1.update(at as int, (kb, after)));
    }
}

/// Whether the metadata of an application have to be extracted again: where
/// its title or its description is not known, or where its state has a
/// version that is not the one that was seen before.
pub open spec fn extraction_due(
    has_title: bool,
    has_description: bool,
    version: Option<u64>,
    cached_version: Option<u64>,
) -> bool {
    !has_title || !has_description || (version is Some && cached_version != version)
}

/// Decides whether the metadata of an application have to be extracted again.
pub fn needs_extraction(
    has_title: bool,
    has_description: bool,
    version: Option<u64>,
    cached_version: Option<u64>,
) -> (due: bool)
    ensures
        due == extraction_due(has_title, has_description, version, cached_version),
{
    let version_changed = match (version, cached_version) {
        (Some(v), Some(cv)) => v != cv,
        (Some(_), None) => true,
        _ => false,
    };
    !has_title || !has_description || version_changed
}

/// The number of attestations that a catalog holds for a contract: those of
/// all the variants of its entry, and 0 where there is no catalog or no entry.
pub open spec fn attestations_of(catalog: Option<CatalogView>, key: Seq<u8>) -> u32 {
    match catalog {
        Some(c) => match assoc_get(c.entries, key) {
            Some(entry) => attestation_total(entry.hash_variants),
            None => 0,
        },
        None => 0,
    }
}

/// Counts the attestations that a catalog holds for a contract.
pub fn attestation_count(catalog_state: Option<&CatalogState>, key: &String) -> (count: u32)
    requires
        catalog_state is Some ==> catalog_state->0.wf(),
    ensures
        count == attestations_of(option_view(catalog_state), key.key_bytes()),
{
    match catalog_state {
        Some(state) => {
            proof {
                state.entries.lemma_wf();
                lemma_same_keys(state.entries.entries(), state@.entries, key.key_bytes());
            }
            match state.entries.position(key) {
                Some(at) => {
                    let entry = state.entries.value_at(at);
                    proof {
                        assert(state@.entries[at as int].1 == entry@);
                        lemma_get_at(state@.entries, at as int);
                    }
                    totals_of(entry).0
                },
                None => 0,
            }
        },
        None => 0,
    }
}

/// A row of the directory: the key of a contract, and what is remembered of it.
pub type Row = (String, Option<AppEntry>);

/// The value of a row.
pub type RowView = (Seq<u8>, Option<AppView>);

/// The value of an entry that may not be there.
pub open spec fn app_view(entry: Option<AppEntry>) -> Option<AppView> {
    match entry {
        Some(e) => Some(e@),
        None => None,
    }
}

/// The values of the rows of a directory.
pub open spec fn rows_view(rows: Seq<Row>) -> Seq<RowView> {
    rows.map_values(|r: Row| (r.0.key_bytes(), app_view(r.1)))
}

/// The key under which applications with this title are taken for one: the
/// title in lowercase.
pub open spec fn title_key(title: Seq<char>) -> Seq<u8> {
    encode_utf8(unicode_lowercase(title))
}

/// A number that may not be there, as 0 where it is not.
pub open spec fn or_zero(n: Option<u64>) -> u64 {
    match n {
        Some(n) => n,
        None => 0,
    }
}

/// Whether one application is to be listed rather than another of the same
/// title: the one with more attestations, then the larger one, then the one
/// with the later version.
pub open spec fn outranks(
    key: Seq<u8>,
    entry: AppView,
    kept_key: Seq<u8>,
    kept: AppView,
    catalog: Option<CatalogView>,
) -> bool {
    let a = attestations_of(catalog, key);
    let b = attestations_of(catalog, kept_key);
    let size_a = or_zero(entry.size_bytes);
    let size_b = or_zero(kept.size_bytes);
    ||| a > b
    ||| a == b && size_a > size_b
    ||| a == b && size_a == size_b && or_zero(entry.version) > or_zero(kept.version)
}

/// The rows of a directory, parted: for each title the application that is
/// listed under it, in the order of the titles in lowercase, and the rows
/// without a title in the order in which they came.
pub struct Grouping {
    pub titled: Seq<(Seq<u8>, (Seq<u8>, AppView))>,
    pub untitled: Seq<RowView>,
}

/// A grouping after one more row was looked at.
pub open spec fn group_row(g: Grouping, row: RowView, catalog: Option<CatalogView>) -> Grouping {
    match row.1 {
        Some(entry) => match entry.title {
            Some(title) => {
                let replaced = Grouping {
                    titled: assoc_put(g.titled, title_key(title), (row.0, entry)),
                    untitled: g.untitled,
                };
                match assoc_get(g.titled, title_key(title)) {
                    Some(kept) => if outranks(row.0, entry, kept.0, kept.1, catalog) {
                        replaced
                    } else {
                        g
                    },
                    None => replaced,
                }
            },
            None => Grouping { titled: g.titled, untitled: g.untitled.push(row) },
        },
        None => Grouping { titled: g.titled, untitled: g.untitled.push(row) },
    }
}

/// The grouping of a list of rows.
pub open spec fn group_rows(rows: Seq<RowView>, catalog: Option<CatalogView>) -> Grouping
    decreases rows.len(),
{
    if rows.len() == 0 {
        Grouping { titled: Seq::empty(), untitled: Seq::empty() }
    } else {
        group_row(group_rows(rows.drop_last(), catalog), rows.last(), catalog)
    }
}

/// The rows of the applications that are listed under a title.
pub open spec fn titled_rows(titled: Seq<(Seq<u8>, (Seq<u8>, AppView))>) -> Seq<RowView> {
    titled.map_values(|p: (Seq<u8>, (Seq<u8>, AppView))| (p.1.0, Some(p.1.1)))
}

/// The rows with one row for every title, followed by the rows without one.
pub open spec fn deduplicated(rows: Seq<RowView>, catalog: Option<CatalogView>) -> Seq<RowView> {
    let g = group_rows(rows, catalog);
    titled_rows(g.titled) + g.untitled
}

spec fn kept_view(s: Seq<(Seq<u8>, (String, AppEntry))>) -> Seq<(Seq<u8>, (Seq<u8>, AppView))> {
    s.map_values(|p: (Seq<u8>, (String, AppEntry))| (p.0, (p.1.0.key_bytes(), p.1.1@)))
}

fn copy_option(text: &Option<String>) -> (copy: Option<String>)
    ensures
        text_view(copy) == text_view(*text),
{
    match text {
        Some(t) => Some(t.clone()),
        None => None,
    }
}

fn copy_entry(entry: &AppEntry) -> (copy: AppEntry)
    ensures
        copy@ == entry@,
{
    AppEntry {
        title: copy_option(&entry.title),
        description: copy_option(&entry.description),
        first_seen: entry.first_seen,
        last_seen: entry.last_seen,
        size_bytes: entry.size_bytes,
        subscribers: entry.subscribers,
        version: entry.version,
    }
}

fn number_or_zero(n: Option<u64>) -> (value: u64)
    ensures
        value == or_zero(n),
{
    match n {
        Some(n) => n,
        None => 0,
    }
}

fn is_better(
    key: &String,
    entry: &AppEntry,
    kept_key: &String,
    kept: &AppEntry,
    catalog_state: Option<&CatalogState>,
) -> (better: bool)
    requires
        catalog_state is Some ==> catalog_state->0.wf(),
    ensures
        better == outranks(
            key.key_bytes(),
            entry@,
            kept_key.key_bytes(),
            kept@,
            option_view(catalog_state),
        ),
{
    let new_atts = attestation_count(catalog_state, key);
    let old_atts = attestation_count(catalog_state, kept_key);
    let new_size = number_or_zero(entry.size_bytes);
    let old_size = number_or_zero(kept.size_bytes);
    let new_ver = number_or_zero(entry.version);
    let old_ver = number_or_zero(kept.version);
    new_atts > old_atts || (new_atts == old_atts && new_size > old_size) || (new_atts == old_atts
        && new_size == old_size && new_ver > old_ver)
}

/// Keeps one application of every title, the one that is best attested, and
/// all those without a title.
pub fn deduplicate_by_title(entries: Vec<Row>, catalog_state: Option<&CatalogState>) -> (rows: Vec<Row>)
    requires
        catalog_state is Some ==> catalog_state->0.wf(),
    ensures
        rows_view(rows@) == deduplicated(rows_view(entries@), option_view(catalog_state)),
{
    let ghost all = rows_view(entries@);
    let ghost catalog = option_view(catalog_state);
    let mut by_title: OrderedMap<String, (String, AppEntry)> = OrderedMap::new();
    let mut no_title: Vec<Row> = Vec::new();
    let n: usize = entries.len();
    let mut i: usize = 0;
    proof {
        assert(all.subrange(0, 0) =~= Seq::empty());
        assert(kept_view(by_title.entries()) =~= Seq::empty());
        assert(rows_view(no_title@) =~= Seq::empty());
    }
    while i < n
        invariant
            i <= n,
            n == entries@.len(),
            all == rows_view(entries@),
            catalog == option_view(catalog_state),
            catalog_state is Some ==> catalog_state->0.wf(),
            by_title.wf(),
            (Grouping {
                titled: kept_view(by_title.entries()),
                untitled: rows_view(no_title@),
            }) == group_rows(all.subrange(0, i as int), catalog),
        decreases n - i,
    {
        let key = &entries[i].0;
        let ghost g = group_rows(all.subrange(0, i as int), catalog);
        let ghost untitled = rows_view(no_title@);
        proof {
            let next = all.subrange(0, i + 1);
            assert(next.drop_last() =~= all.subrange(0, i as int));
            assert(next.last() == (key.key_bytes(), app_view(entries@[i as int].1)));
        }
        let mut titled = false;
        if let Some(entry) = &entries[i].1 {
            if let Some(title) = &entry.title {
                titled = true;
                let title_lower = to_lowercase(title.as_str());
                proof {
                    by_title.lemma_wf();
                    lemma_same_keys(
                        by_title.entries(),
                        kept_view(by_title.entries()),
                        title_lower.key_bytes(),
                    );
                }
                let better = match by_title.get(&title_lower) {
                    Some(existing) => is_better(key, entry, &existing.0, &existing.1, catalog_state),
                    None => true,
                };
                if better {
                    let ghost before = by_title.entries();
                    by_title.insert(title_lower, (key.clone(), copy_entry(entry)));
                    proof {
                        lemma_kept_put(before, title_key(title@), key.key_bytes(), entry@, by_title.entries());
                    }
                }
            }
        }
        if !titled {
            let copy: Option<AppEntry> = match &entries[i].1 {
                Some(entry) => Some(copy_entry(entry)),
                None => None,
            };
            no_title.push((key.clone(), copy));
            assert(rows_view(no_title@) =~= untitled.push(all[i as int]));
        }
        i += 1;
    }
    assert(all.subrange(0, n as int) =~= all);
    let ghost g = group_rows(all, catalog);
    let mut rows: Vec<Row> = Vec::new();
    let m: usize = by_title.len();
    let mut j: usize = 0;
    while j < m
        invariant
            j <= m,
            by_title.wf(),
            m == by_title.entries().len(),
            g.titled == kept_view(by_title.entries()),
            rows_view(rows@) == titled_rows(g.titled).subrange(0, j as int),
        decreases m - j,
    {
        let kept = by_title.value_at(j);
        let ghost before = rows_view(rows@);
        rows.push((kept.0.clone(), Some(copy_entry(&kept.1))));
        assert(rows_view(rows@) =~= before.push(titled_rows(g.titled)[j as int]));
        assert(before.push(titled_rows(g.titled)[j as int]) =~= titled_rows(g.titled).subrange(
            0,
            j + 1,
        ));
        j += 1;
    }
    assert(titled_rows(g.titled).subrange(0, m as int) =~= titled_rows(g.titled));
    let ghost listed = rows_view(rows@);
    let mut no_title = no_title;
    rows.append(&mut no_title);
    assert(rows_view(rows@) =~= listed + g.untitled);
    rows
}

proof fn lemma_kept_put(
    before: Seq<(Seq<u8>, (String, AppEntry))>,
    title: Seq<u8>,
    key: Seq<u8>,
    entry: AppView,
    after: Seq<(Seq<u8>, (String, AppEntry))>,
)
    requires
        keys_increasing(before),
        exists|k: String, e: AppEntry|
            k.key_bytes() == key && e@ == entry && after == assoc_put(before, title, (k, e)),
    ensures
        kept_view(after) == assoc_put(kept_view(before), title, (key, entry)),
{
    let (k, e) = choose|k: String, e: AppEntry|
        k.key_bytes() == key && e@ == entry && after == assoc_put(before, title, (k, e));
    lemma_same_keys(before, kept_view(before), title);
    assert(kept_view(after) =~= assoc_put(kept_view(before), title, (key, entry)));
}

/// The rows of the web applications among the contracts whose kind is
/// known, each with what the directory remembers of it, in the order of the
/// keys.
pub open spec fn web_rows(types: Seq<(Seq<u8>, ContractType)>, apps: Seq<(Seq<u8>, AppView)>) -> Seq<RowView>
    decreases types.len(),
{
    if types.len() == 0 {
        Seq::empty()
    } else {
        let rest = web_rows(types.drop_last(), apps);
        if types.last().1 == ContractType::WebApp {
            rest.push((types.last().0, assoc_get(apps, types.last().0)))
        } else {
            rest
        }
    }
}

/// The rows of the entries of the directory whose contracts have no known
/// kind yet, in the order of the keys.
pub open spec fn remembered_rows(apps: Seq<(Seq<u8>, AppView)>, types: Seq<(Seq<u8>, ContractType)>) -> Seq<RowView>
    decreases apps.len(),
{
    if apps.len() == 0 {
        Seq::empty()
    } else {
        let rest = remembered_rows(apps.drop_last(), types);
        if has_key(types, apps.last().0) {
            rest
        } else {
            rest.push((apps.last().0, Some(apps.last().1)))
        }
    }
}

/// Whether a text holds the query, both in lowercase. The query is given in
/// lowercase.
pub open spec fn holds_query(text: Seq<char>, query: Seq<char>) -> bool {
    find_from(encode_utf8(unicode_lowercase(text)), encode_utf8(query), 0) is Some
}

/// Whether a row is listed for a query, given in lowercase: every row for
/// the empty query, else those whose key, title or description holds it.
pub open spec fn row_matches(row: RowView, query: Seq<char>) -> bool {
    ||| query.len() == 0
    ||| holds_query(decode_utf8(row.0), query)
    ||| row.1 is Some && row.1->0.title is Some && holds_query(row.1->0.title->0, query)
    ||| row.1 is Some && row.1->0.description is Some && holds_query(
        row.1->0.description->0,
        query,
    )
}

/// The rows that are listed for a query, in the order in which they came.
pub open spec fn matching_rows(rows: Seq<RowView>, query: Seq<char>) -> Seq<RowView>
    decreases rows.len(),
{
    if rows.len() == 0 {
        Seq::empty()
    } else {
        let rest = matching_rows(rows.drop_last(), query);
        if row_matches(rows.last(), query) {
            rest.push(rows.last())
        } else {
            rest
        }
    }
}

/// The key by which the rows of a listing are ordered: those with a title
/// first, by the title in lowercase, then those without, by their keys.
pub open spec fn listing_key(row: RowView) -> Seq<u8> {
    if row.1 is Some && row.1->0.title is Some {
        seq![0u8] + title_key(row.1->0.title->0)
    } else {
        seq![1u8] + row.0
    }
}

/// The key of the rows of a listing, as a function.
pub open spec fn by_listing_key() -> spec_fn(RowView) -> Seq<u8> {
    |row: RowView| listing_key(row)
}

/// The listing of the directory for a query: the web applications that are
/// known, one of every title, that match the query, in the order of their
/// titles.
pub open spec fn listing(
    types: Seq<(Seq<u8>, ContractType)>,
    apps: Seq<(Seq<u8>, AppView)>,
    catalog: Option<CatalogView>,
    query: Seq<char>,
) -> Seq<RowView> {
    let known = web_rows(types, apps) + remembered_rows(apps, types);
    sort_by(
        matching_rows(deduplicated(known, catalog), unicode_lowercase(query)),
        by_listing_key(),
    )
}

fn copy_found(entry: Option<&AppEntry>) -> (copy: Option<AppEntry>)
    ensures
        app_view(copy) == (match entry {
            Some(e) => Some(e@),
            None => None,
        }),
{
    match entry {
        Some(e) => Some(copy_entry(e)),
        None => None,
    }
}

fn known_rows(types: &OrderedMap<String, ContractType>, catalog: &OrderedMap<String, AppEntry>) -> (rows: Vec<Row>)
    requires
        types.wf(),
        catalog.wf(),
    ensures
        rows_view(rows@) == web_rows(types.entries(), apps_view(catalog.entries()))
            + remembered_rows(apps_view(catalog.entries()), types.entries()),
{
    let ghost kinds = types.entries();
    let ghost apps = apps_view(catalog.entries());
    let mut rows: Vec<Row> = Vec::new();
    let n: usize = types.len();
    let mut i: usize = 0;
    proof {
        assert(kinds.subrange(0, 0) =~= Seq::empty());
        assert(rows_view(rows@) =~= Seq::empty());
        catalog.lemma_wf();
        types.lemma_wf();
    }
    while i < n
        invariant
            i <= n,
            types.wf(),
            catalog.wf(),
            n == types.entries().len(),
            kinds == types.entries(),
            apps == apps_view(catalog.entries()),
            keys_increasing(catalog.entries()),
            rows_view(rows@) == web_rows(kinds.subrange(0, i as int), apps),
        decreases n - i,
    {
        let key = types.key_at(i);
        let kind = types.value_at(i);
        let ghost before = rows_view(rows@);
        proof {
            let next = kinds.subrange(0, i + 1);
            assert(next.drop_last() =~= kinds.subrange(0, i as int));
            assert(next.last() == (key.key_bytes(), *kind));
            lemma_same_keys(catalog.entries(), apps, key.key_bytes());
        }
        if let ContractType::WebApp = kind {
            let found = copy_found(catalog.get(key));
            rows.push((key.clone(), found));
            assert(rows_view(rows@) =~= before.push((key.key_bytes(), assoc_get(apps, key.key_bytes()))));
        }
        i += 1;
    }
    assert(kinds.subrange(0, n as int) =~= kinds);
    let ghost web = rows_view(rows@);
    let m: usize = catalog.len();
    let mut j: usize = 0;
    proof {
        assert(apps.subrange(0, 0) =~= Seq::empty());
        assert(web + Seq::<RowView>::empty() =~= web);
    }
    while j < m
        invariant
            j <= m,
            types.wf(),
            catalog.wf(),
            m == catalog.entries().len(),
            kinds == types.entries(),
            apps == apps_view(catalog.entries()),
            rows_view(rows@) == web + remembered_rows(apps.subrange(0, j as int), kinds),
        decreases m - j,
    {
        let key = catalog.key_at(j);
        let entry = catalog.value_at(j);
        let ghost before = rows_view(rows@);
        let ghost rest = remembered_rows(apps.subrange(0, j as int), kinds);
        proof {
            let next = apps.subrange(0, j + 1);
            assert(next.drop_last() =~= apps.subrange(0, j as int));
            assert(next.last() == (key.key_bytes(), entry@));
        }
        if types.position(key).is_none() {
            rows.push((key.clone(), Some(copy_entry(entry))));
            assert(rows_view(rows@) =~= before.push((key.key_bytes(), Some(entry@))));
            assert(before.push((key.key_bytes(), Some(entry@))) =~= web + rest.push(
                (key.key_bytes(), Some(entry@)),
            ));
        }
        j += 1;
    }
    assert(apps.subrange(0, m as int) =~= apps);
    rows
}

fn text_holds(text: &str, query: &String) -> (holds: bool)
    ensures
        holds == holds_query(text@, query@),
{
    let lower = to_lowercase(text);
    find_bytes(lower.as_str().as_bytes(), query.as_str().as_bytes(), 0).is_some()
}

fn option_holds(text: &Option<String>, query: &String) -> (holds: bool)
    ensures
        holds == (text_view(*text) is Some && holds_query(text_view(*text)->0, query@)),
{
    match text {
        Some(t) => text_holds(t.as_str(), query),
        None => false,
    }
}

fn matches(row: &Row, query: &String) -> (listed: bool)
    ensures
        listed == row_matches((row.0.key_bytes(), app_view(row.1)), query@),
{
    proof {
        vstd::utf8::encode_utf8_decode_utf8(row.0@);
        if query@.len() == 0 {
            assert(encode_utf8(query@) =~= Seq::<u8>::empty());
        } else if encode_utf8(query@).len() == 0 {
            vstd::utf8::encode_utf8_decode_utf8(query@);
            assert(encode_utf8(query@) =~= Seq::<u8>::empty());
            assert(decode_utf8(Seq::<u8>::empty()) =~= Seq::<char>::empty());
        }
    }
    if query.as_str().as_bytes().len() == 0 {
        return true;
    }
    if text_holds(row.0.as_str(), query) {
        return true;
    }
    match &row.1 {
        Some(entry) => option_holds(&entry.title, query) || option_holds(&entry.description, query),
        None => false,
    }
}

fn copy_row(row: &Row) -> (copy: Row)
    ensures
        copy.0 == row.0,
        app_view(copy.1) == app_view(row.1),
{
    let entry: Option<AppEntry> = match &row.1 {
        Some(e) => Some(copy_entry(e)),
        None => None,
    };
    (row.0.clone(), entry)
}

fn filter_rows(rows: &Vec<Row>, query: &String) -> (kept: Vec<Row>)
    ensures
        rows_view(kept@) == matching_rows(rows_view(rows@), query@),
{
    let ghost all = rows_view(rows@);
    let mut kept: Vec<Row> = Vec::new();
    let n: usize = rows.len();
    let mut i: usize = 0;
    proof {
        assert(all.subrange(0, 0) =~= Seq::empty());
        assert(rows_view(kept@) =~= Seq::empty());
    }
    while i < n
        invariant
            i <= n,
            n == rows@.len(),
            all == rows_view(rows@),
            rows_view(kept@) == matching_rows(all.subrange(0, i as int), query@),
        decreases n - i,
    {
        let ghost before = rows_view(kept@);
        proof {
            let next = all.subrange(0, i + 1);
            assert(next.drop_last() =~= all.subrange(0, i as int));
        }
        if matches(&rows[i], query) {
            kept.push(copy_row(&rows[i]));
            assert(rows_view(kept@) =~= before.push(all[i as int]));
        }
        i += 1;
    }
    assert(all.subrange(0, n as int) =~= all);
    kept
}

struct Tagged {
    tag: Vec<u8>,
    row: Row,
}

struct TaggedView {
    tag: Seq<u8>,
    row: RowView,
}

impl View for Tagged {
    type V = TaggedView;

    closed spec fn view(&self) -> TaggedView {
        TaggedView { tag: self.tag@, row: (self.row.0.key_bytes(), app_view(self.row.1)) }
    }
}

impl Keyed for Tagged {
    closed spec fn key_of(value: TaggedView) -> Seq<u8> {
        value.tag
    }

    fn key_bytes(&self) -> (bytes: &[u8]) {
        self.tag.as_slice()
    }
}

spec fn tagged(rows: Seq<RowView>) -> Seq<TaggedView> {
    rows.map_values(|r: RowView| TaggedView { tag: listing_key(r), row: r })
}

proof fn lemma_insert_tagged(s: Seq<RowView>, x: RowView)
    ensures
        insert_by(tagged(s), TaggedView { tag: listing_key(x), row: x }, key_fn::<Tagged>())
            == tagged(insert_by(s, x, by_listing_key())),
    decreases s.len(),
{
    let tx = TaggedView { tag: listing_key(x), row: x };
    if s.len() > 0 && lex_less(listing_key(x), listing_key(s.last())) {
        lemma_insert_tagged(s.drop_last(), x);
        assert(tagged(s).drop_last() =~= tagged(s.drop_last()));
        assert(tagged(insert_by(s.drop_last(), x, by_listing_key())).push(tagged(s).last())
            =~= tagged(insert_by(s.drop_last(), x, by_listing_key()).push(s.last())));
    } else {
        assert(tagged(s).push(tx) =~= tagged(s.push(x)));
    }
}

proof fn lemma_sort_tagged(s: Seq<RowView>)
    ensures
        sort_by(tagged(s), key_fn::<Tagged>()) == tagged(sort_by(s, by_listing_key())),
    decreases s.len(),
{
    if s.len() == 0 {
        assert(tagged(s) =~= tagged(sort_by(s, by_listing_key())));
    } else {
        lemma_sort_tagged(s.drop_last());
        assert(tagged(s).drop_last() =~= tagged(s.drop_last()));
        lemma_insert_tagged(sort_by(s.drop_last(), by_listing_key()), s.last());
    }
}

fn tag_of(row: &Row) -> (tag: Vec<u8>)
    ensures
        tag@ == listing_key((row.0.key_bytes(), app_view(row.1))),
{
    let mut tag: Vec<u8> = Vec::new();
    if let Some(entry) = &row.1 {
        if let Some(title) = &entry.title {
            let lower = to_lowercase(title.as_str());
            tag.push(0u8);
            push_bytes(&mut tag, lower.as_str().as_bytes());
            assert(tag@ =~= seq![0u8] + title_key(title@));
            return tag;
        }
    }
    tag.push(1u8);
    push_bytes(&mut tag, row.0.as_str().as_bytes());
    assert(tag@ =~= seq![1u8] + row.0.key_bytes());
    tag
}

fn sort_rows(rows: &Vec<Row>) -> (sorted: Vec<Row>)
    ensures
        rows_view(sorted@) == sort_by(rows_view(rows@), by_listing_key()),
{
    let ghost all = rows_view(rows@);
    let mut keyed: Vec<Tagged> = Vec::new();
    let n: usize = rows.len();
    let mut i: usize = 0;
    while i < n
        invariant
            i <= n,
            n == rows@.len(),
            all == rows_view(rows@),
            keyed@.len() == i,
            forall|j: int| 0 <= j < i ==> (#[trigger] keyed@[j])@ == tagged(all)[j],
        decreases n - i,
    {
        keyed.push(Tagged { tag: tag_of(&rows[i]), row: copy_row(&rows[i]) });
        i += 1;
    }
    assert(views(keyed@) =~= tagged(all));
    sort_by_key(&mut keyed);
    proof {
        lemma_sort_tagged(all);
    }
    let ghost wanted = sort_by(all, by_listing_key());
    let mut sorted: Vec<Row> = Vec::new();
    let m: usize = keyed.len();
    let mut j: usize = 0;
    assert(views(keyed@).len() == m);
    assert(rows_view(sorted@) =~= wanted.subrange(0, 0));
    while j < m
        invariant
            j <= m,
            m == keyed@.len(),
            wanted.len() == m,
            views(keyed@) == tagged(wanted),
            rows_view(sorted@) == wanted.subrange(0, j as int),
        decreases m - j,
    {
        let ghost before = rows_view(sorted@);
        assert(views(keyed@)[j as int] == keyed@[j as int]@);
        assert(tagged(wanted)[j as int].row == wanted[j as int]);
        sorted.push(copy_row(&keyed[j].row));
        assert(rows_view(sorted@) =~= before.push(wanted[j as int]));
        assert(before.push(wanted[j as int]) =~= wanted.subrange(0, j + 1));
        j += 1;
    }
    assert(wanted.subrange(0, m as int) =~= wanted);
    sorted
}

/// Lists the web applications of the directory for a query.
pub fn list_applications(
    types: &OrderedMap<String, ContractType>,
    catalog: &OrderedMap<String, AppEntry>,
    catalog_state: Option<&CatalogState>,
    query: &str,
) -> (rows: Vec<Row>)
    requires
        types.wf(),
        catalog.wf(),
        catalog_state is Some ==> catalog_state->0.wf(),
    ensures
        rows_view(rows@) == listing(
            types.entries(),
            apps_view(catalog.entries()),
            option_view(catalog_state),
            query@,
        ),
{
    let wanted = to_lowercase(query);
    let known = known_rows(types, catalog);
    let distinct = deduplicate_by_title(known, catalog_state);
    let matching = filter_rows(&distinct, &wanted);
    sort_rows(&matching)
}

/// Whether every application stands under its own title in lowercase.
pub open spec fn filed_by_title(titled: Seq<(Seq<u8>, (Seq<u8>, AppView))>) -> bool {
    forall|i: int|
        0 <= i < titled.len() ==> (#[trigger] titled[i]).1.1.title is Some && titled[i].0
            == title_key(titled[i].1.1.title->0)
}

/// No two of the applications that are listed under a title have the same
/// title in lowercase: they stand in the strict order of their titles.
pub proof fn lemma_one_of_every_title(rows: Seq<RowView>, catalog: Option<CatalogView>)
    ensures
        keys_increasing(group_rows(rows, catalog).titled),
        filed_by_title(group_rows(rows, catalog).titled),
    decreases rows.len(),
{
    if rows.len() > 0 {
        let g = group_rows(rows.drop_last(), catalog);
        lemma_one_of_every_title(rows.drop_last(), catalog);
        let row = rows.last();
        if row.1 is Some && row.1->0.title is Some {
            let entry = row.1->0;
            let key = title_key(entry.title->0);
            let put = assoc_put(g.titled, key, (row.0, entry));
            lemma_put(g.titled, key, (row.0, entry));
            assert forall|i: int| 0 <= i < put.len() implies (#[trigger] put[i]).1.1.title is Some
                && put[i].0 == title_key(put[i].1.1.title->0) by {
                lemma_put_elements(g.titled, key, (row.0, entry), i);
            }
        }
    }
}

/// A listing stands in the order of its keys: the applications with a title
/// first, by their titles in lowercase, then those without.
pub proof fn lemma_listing_ordered(
    types: Seq<(Seq<u8>, ContractType)>,
    apps: Seq<(Seq<u8>, AppView)>,
    catalog: Option<CatalogView>,
    query: Seq<char>,
)
    ensures
        ordered_by(listing(types, apps, catalog, query), by_listing_key()),
{
    let known = web_rows(types, apps) + remembered_rows(apps, types);
    lemma_sort_ordered(
        matching_rows(deduplicated(known, catalog), unicode_lowercase(query)),
        by_listing_key(),
    );
}

} // verus!
