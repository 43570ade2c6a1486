//! The Anemoi configuration: domains, residency groups (rosters), model
//! profiles, runtimes and continuity policy.
//!
//! Maps are held as vectors of `(id, value)` entries; a lookup finds the
//! first entry with the id.

use vstd::prelude::*;
use crate::ids::{ModelId, RuntimeId, ResidencyGroupId, DomainId};
use crate::types::{
    ModelProfile, ModelProfileView, ResidencyGroup, ResidencyState, ModelResident,
    clone_runtime_ids, clone_model_ids, clone_group_ids, clone_strings, runtime_ids_view,
    model_ids_view, group_ids_view, strings_view,
};

verus! {

/// An identifier type whose text names the entry.
pub trait IdKey: View<V = Seq<char>> + Sized {
    /// The identifier's text.
    fn key(&self) -> (r: &str)
        ensures
            r@ == self@;

    /// A copy of the identifier.
    fn copy_key(&self) -> (r: Self)
        ensures
            r@ == self@;
}

impl IdKey for ModelId {
    fn key(&self) -> (r: &str) {
        self.as_str()
    }

    fn copy_key(&self) -> (r: Self) {
        self.clone()
    }
}

impl IdKey for RuntimeId {
    fn key(&self) -> (r: &str) {
        self.as_str()
    }

    fn copy_key(&self) -> (r: Self) {
        self.clone()
    }
}

impl IdKey for DomainId {
    fn key(&self) -> (r: &str) {
        self.as_str()
    }

    fn copy_key(&self) -> (r: Self) {
        self.clone()
    }
}

impl IdKey for ResidencyGroupId {
    fn key(&self) -> (r: &str) {
        self.as_str()
    }

    fn copy_key(&self) -> (r: Self) {
        self.clone()
    }
}

/// A value that can be copied with the same view.
pub trait CopyView: View + Sized {
    /// A copy with the same view.
    fn copy_view(&self) -> (r: Self)
        ensures
            r@ == self@;
}

/// Whether entry `i` is the first with key `k`.
pub open spec fn is_first_entry<K: View<V = Seq<char>>, V>(entries: Seq<(K, V)>, k: Seq<char>, i: int) -> bool {
    &&& 0 <= i < entries.len()
    &&& entries[i].0@ == k
    &&& forall|j: int| 0 <= j < i ==> (#[trigger] entries[j]).0@ != k
}

/// Whether some entry has key `k`.
pub open spec fn has_key<K: View<V = Seq<char>>, V>(entries: Seq<(K, V)>, k: Seq<char>) -> bool {
    exists|i: int| 0 <= i < entries.len() && (#[trigger] entries[i]).0@ == k
}

/// The index of the first entry with key `k`.
pub open spec fn first_entry<K: View<V = Seq<char>>, V>(entries: Seq<(K, V)>, k: Seq<char>) -> int {
    choose|i: int| is_first_entry(entries, k, i)
}

/// The value of the first entry with key `k`, if any.
pub open spec fn lookup<K: View<V = Seq<char>>, V>(entries: Seq<(K, V)>, k: Seq<char>) -> Option<V> {
    if has_key(entries, k) {
        Some(entries[first_entry(entries, k)].1)
    } else {
        None
    }
}

/// Some entry with key `k` exists exactly when a first one does.
pub proof fn lemma_first_entry<K: View<V = Seq<char>>, V>(entries: Seq<(K, V)>, k: Seq<char>)
    ensures
        has_key(entries, k) ==> is_first_entry(entries, k, first_entry(entries, k)),
        forall|i: int| is_first_entry(entries, k, i) ==> i == first_entry(entries, k),
{
    if has_key(entries, k) {
        let w = choose|i: int| 0 <= i < entries.len() && (#[trigger] entries[i]).0@ == k;
        lemma_min_index(entries, k, w);
    }
    assert forall|i: int| is_first_entry(entries, k, i) implies i == first_entry(entries, k) by {
        lemma_min_index(entries, k, i);
        let f = first_entry(entries, k);
        if f < i {
            assert(entries[f].0@ != k);
        } else if i < f {
            assert(entries[i].0@ != k);
        }
    }
}

proof fn lemma_min_index<K: View<V = Seq<char>>, V>(entries: Seq<(K, V)>, k: Seq<char>, w: int)
    requires
        0 <= w < entries.len(),
        entries[w].0@ == k,
    ensures
        exists|i: int| is_first_entry(entries, k, i),
    decreases w,
{
    if exists|j: int| 0 <= j < w && (#[trigger] entries[j]).0@ == k {
        let j = choose|j: int| 0 <= j < w && (#[trigger] entries[j]).0@ == k;
        lemma_min_index(entries, k, j);
    } else {
        assert(is_first_entry(entries, k, w));
    }
}

/// Finds the first entry whose key is `k`.
pub fn find_entry<K: IdKey, V>(entries: &Vec<(K, V)>, k: &str) -> (r: Option<usize>)
    ensures
        match r {
            Some(i) => is_first_entry(entries@, k@, i as int) && i as int == first_entry(entries@, k@)
                && lookup(entries@, k@) == Some(entries@[i as int].1),
            None => !has_key(entries@, k@) && lookup(entries@, k@) is None,
        },
{
    let mut i: usize = 0;
    while i < entries.len()
        invariant
            0 <= i <= entries@.len(),
            forall|j: int| 0 <= j < i ==> (#[trigger] entries@[j]).0@ != k@,
        decreases entries@.len() - i,
    {
        if crate::text::str_eq(entries[i].0.key(), k) {
            proof {
                assert(is_first_entry(entries@, k@, i as int));
                lemma_first_entry(entries@, k@);
            }
            return Some(i);
        }
        i = i + 1;
    }
    None
}

/// A request domain: which rosters (or which live runtime) supply candidates.
#[derive(Debug, PartialEq, Eq)]
pub struct DomainConfig {
    /// Static roster: residency groups whose models are candidates.
    pub rosters: Vec<ResidencyGroupId>,
    /// Live roster: a runtime whose configured models are the candidates.
    pub live_roster: Option<RuntimeId>,
}

/// The mathematical content of a [`DomainConfig`].
pub struct DomainConfigView {
    pub rosters: Seq<Seq<char>>,
    pub live_roster: Option<Seq<char>>,
}

impl View for DomainConfig {
    type V = DomainConfigView;

    open spec fn view(&self) -> DomainConfigView {
        DomainConfigView {
            rosters: group_ids_view(self.rosters@),
            live_roster: match self.live_roster { Some(r) => Some(r@), None => None },
        }
    }
}

impl Clone for DomainConfig {
    fn clone(&self) -> (r: Self)
        ensures
            r.rosters@ == self.rosters@,
            r.live_roster == self.live_roster,
            r@ == self@,
    {
        DomainConfig {
            rosters: clone_group_ids(&self.rosters),
            live_roster: match &self.live_roster { Some(x) => Some(x.clone()), None => None },
        }
    }
}

/// A resident declared in configuration for a runtime.
#[derive(Debug, PartialEq, Eq)]
pub struct RuntimeResidentConfig {
    pub model_id: ModelId,
    pub state: ResidencyState,
    pub vram_mb: Option<u64>,
    pub ram_mb: Option<u64>,
    pub kv_cache_mb: Option<u64>,
}

impl Clone for RuntimeResidentConfig {
    fn clone(&self) -> (r: Self)
        ensures
            r == *self,
    {
        RuntimeResidentConfig {
            model_id: self.model_id.clone(),
            state: self.state,
            vram_mb: self.vram_mb,
            ram_mb: self.ram_mb,
            kv_cache_mb: self.kv_cache_mb,
        }
    }
}

impl RuntimeResidentConfig {
    /// The resident this entry declares, with no load time.
    pub fn into_resident(self) -> (r: ModelResident)
        ensures
            r == (ModelResident {
                model_id: self.model_id,
                state: self.state,
                vram_mb: self.vram_mb,
                ram_mb: self.ram_mb,
                kv_cache_mb: self.kv_cache_mb,
                loaded_since: None,
            }),
    {
        ModelResident {
            model_id: self.model_id,
            state: self.state,
            vram_mb: self.vram_mb,
            ram_mb: self.ram_mb,
            kv_cache_mb: self.kv_cache_mb,
            loaded_since: None,
        }
    }
}

/// A runtime: its adapter kind, where to reach it, and declared residents.
#[derive(Debug, PartialEq, Eq)]
pub struct RuntimeConfig {
    pub adapter: String,
    pub base_url: Option<String>,
    pub auth_token: Option<String>,
    pub initial_residents: Vec<RuntimeResidentConfig>,
    /// Path to the runtime's own config file (for llama-swap's `matrix`).
    pub config_path: Option<String>,
}

/// The mathematical content of a [`RuntimeConfig`].
pub struct RuntimeConfigView {
    pub adapter: Seq<char>,
    pub base_url: Option<Seq<char>>,
    pub auth_token: Option<Seq<char>>,
    pub initial_residents: Seq<RuntimeResidentConfig>,
    pub config_path: Option<Seq<char>>,
}

/// The view of an optional string.
pub open spec fn opt_string_view(s: Option<String>) -> Option<Seq<char>> {
    match s { Some(x) => Some(x@), None => None }
}

impl View for RuntimeConfig {
    type V = RuntimeConfigView;

    open spec fn view(&self) -> RuntimeConfigView {
        RuntimeConfigView {
            adapter: self.adapter@,
            base_url: opt_string_view(self.base_url),
            auth_token: opt_string_view(self.auth_token),
            initial_residents: self.initial_residents@,
            config_path: opt_string_view(self.config_path),
        }
    }
}

fn clone_opt_string(s: &Option<String>) -> (r: Option<String>)
    ensures
        opt_string_view(r) == opt_string_view(*s),
{
    match s {
        Some(x) => Some(x.clone()),
        None => None,
    }
}

impl Clone for RuntimeConfig {
    fn clone(&self) -> (r: Self)
        ensures
            r@ == self@,
    {
        let residents = self.initial_residents.clone();
        proof {
            assert forall|i: int| 0 <= i < residents@.len() implies residents@[i] == self.initial_residents@[i] by {
                assert(cloned(self.initial_residents@[i], residents@[i]));
            }
            assert(residents@ =~= self.initial_residents@);
        }
        RuntimeConfig {
            adapter: self.adapter.clone(),
            base_url: clone_opt_string(&self.base_url),
            auth_token: clone_opt_string(&self.auth_token),
            initial_residents: residents,
            config_path: clone_opt_string(&self.config_path),
        }
    }
}

/// The runtime adapters the configuration may name.
pub open spec fn known_runtime_adapters() -> Seq<Seq<char>> {
    seq!["mock"@, "ollama"@, "llama_cpp"@, "llama_server"@, "llama_swap"@]
}

/// Whether `adapter` names a known runtime adapter.
pub fn is_known_runtime_adapter(adapter: &str) -> (r: bool)
    ensures
        r == known_runtime_adapters().contains(adapter@),
{
    let known: [&str; 5] = ["mock", "ollama", "llama_cpp", "llama_server", "llama_swap"];
    let mut i: usize = 0;
    while i < 5
        invariant
            0 <= i <= 5,
            known@.map_values(|s: &str| s@) == known_runtime_adapters(),
            forall|j: int| 0 <= j < i ==> known_runtime_adapters()[j] != adapter@,
        decreases 5 - i,
    {
        if crate::text::str_eq(known[i], adapter) {
            assert(known_runtime_adapters()[i as int] == adapter@);
            return true;
        }
        i = i + 1;
    }
    false
}

/// Continuity policy: keep a small worker hot and stage large models in the
/// background rather than leave an interactive request waiting.
#[derive(Debug, PartialEq, Eq, Structural, Clone, Copy)]
pub struct ContinuityConfig {
    pub keep_small_worker_hot: bool,
    pub background_load: bool,
    pub max_blank_wait_ms: u64,
    pub prefer_degraded_response_over_silence: bool,
}

impl Default for ContinuityConfig {
    fn default() -> (r: Self)
        ensures
            r == (ContinuityConfig {
                keep_small_worker_hot: true,
                background_load: true,
                max_blank_wait_ms: 1500,
                prefer_degraded_response_over_silence: true,
            }),
    {
        ContinuityConfig {
            keep_small_worker_hot: true,
            background_load: true,
            max_blank_wait_ms: 1500,
            prefer_degraded_response_over_silence: true,
        }
    }
}

/// A residency group as configured.
#[derive(Debug, PartialEq, Eq)]
pub struct ResidencyGroupConfig {
    pub purpose: Vec<String>,
    pub models: Vec<ModelId>,
    pub keep_hot: bool,
    pub allow_background_load: bool,
    pub pinned: bool,
}

/// The mathematical content of a [`ResidencyGroupConfig`].
pub struct ResidencyGroupConfigView {
    pub purpose: Seq<Seq<char>>,
    pub models: Seq<Seq<char>>,
    pub keep_hot: bool,
    pub allow_background_load: bool,
    pub pinned: bool,
}

impl View for ResidencyGroupConfig {
    type V = ResidencyGroupConfigView;

    open spec fn view(&self) -> ResidencyGroupConfigView {
        ResidencyGroupConfigView {
            purpose: strings_view(self.purpose@),
            models: model_ids_view(self.models@),
            keep_hot: self.keep_hot,
            allow_background_load: self.allow_background_load,
            pinned: self.pinned,
        }
    }
}

impl Clone for ResidencyGroupConfig {
    fn clone(&self) -> (r: Self)
        ensures
            r@ == self@,
            r.purpose@ == self.purpose@,
            r.models@ == self.models@,
            r.keep_hot == self.keep_hot,
            r.allow_background_load == self.allow_background_load,
            r.pinned == self.pinned,
    {
        ResidencyGroupConfig {
            purpose: clone_strings(&self.purpose),
            models: clone_model_ids(&self.models),
            keep_hot: self.keep_hot,
            allow_background_load: self.allow_background_load,
            pinned: self.pinned,
        }
    }
}

impl ResidencyGroupConfig {
    /// The residency group this configuration describes, under `id`.
    pub fn into_group(self, id: ResidencyGroupId) -> (r: ResidencyGroup)
        ensures
            r.id@ == id@,
            r.id == id,
            r.purpose@ == self.purpose@,
            r.models@ == self.models@,
            r.keep_hot == self.keep_hot,
            r.allow_background_load == self.allow_background_load,
            r.pinned == self.pinned,
    {
        ResidencyGroup {
            id,
            purpose: self.purpose,
            models: self.models,
            keep_hot: self.keep_hot,
            allow_background_load: self.allow_background_load,
            pinned: self.pinned,
        }
    }
}

/// A model profile as configured (without its id).
#[derive(Debug, PartialEq, Eq)]
pub struct ModelProfileConfig {
    pub family: String,
    pub parameter_class: String,
    pub context_window: Option<u32>,
    pub vram_required_mb: Option<u64>,
    pub ram_required_mb: Option<u64>,
    pub cold_load_estimate_ms: Option<u64>,
    pub supported_runtimes: Vec<RuntimeId>,
    pub supports_streaming: Option<bool>,
}

/// The mathematical content of a [`ModelProfileConfig`].
pub struct ModelProfileConfigView {
    pub family: Seq<char>,
    pub parameter_class: Seq<char>,
    pub context_window: Option<u32>,
    pub vram_required_mb: Option<u64>,
    pub ram_required_mb: Option<u64>,
    pub cold_load_estimate_ms: Option<u64>,
    pub supported_runtimes: Seq<Seq<char>>,
    pub supports_streaming: Option<bool>,
}

impl View for ModelProfileConfig {
    type V = ModelProfileConfigView;

    open spec fn view(&self) -> ModelProfileConfigView {
        ModelProfileConfigView {
            family: self.family@,
            parameter_class: self.parameter_class@,
            context_window: self.context_window,
            vram_required_mb: self.vram_required_mb,
            ram_required_mb: self.ram_required_mb,
            cold_load_estimate_ms: self.cold_load_estimate_ms,
            supported_runtimes: runtime_ids_view(self.supported_runtimes@),
            supports_streaming: self.supports_streaming,
        }
    }
}

/// The profile a configuration describes, under `id`.
pub open spec fn profile_of(c: ModelProfileConfigView, id: Seq<char>) -> ModelProfileView {
    ModelProfileView {
        id,
        family: c.family,
        parameter_class: c.parameter_class,
        context_window: c.context_window,
        vram_required_mb: c.vram_required_mb,
        ram_required_mb: c.ram_required_mb,
        cold_load_estimate_ms: c.cold_load_estimate_ms,
        supported_runtimes: c.supported_runtimes,
        supports_streaming: c.supports_streaming,
    }
}

impl Clone for ModelProfileConfig {
    fn clone(&self) -> (r: Self)
        ensures
            r@ == self@,
            r.supported_runtimes@ == self.supported_runtimes@,
    {
        ModelProfileConfig {
            family: self.family.clone(),
            parameter_class: self.parameter_class.clone(),
            context_window: self.context_window,
            vram_required_mb: self.vram_required_mb,
            ram_required_mb: self.ram_required_mb,
            cold_load_estimate_ms: self.cold_load_estimate_ms,
            supported_runtimes: clone_runtime_ids(&self.supported_runtimes),
            supports_streaming: self.supports_streaming,
        }
    }
}

impl ModelProfileConfig {
    /// The model profile this configuration describes, under `id`.
    pub fn into_profile(self, id: ModelId) -> (r: ModelProfile)
        ensures
            r@ == profile_of(self@, id@),
            r.id == id,
            r.supported_runtimes@ == self.supported_runtimes@,
    {
        ModelProfile {
            id,
            family: self.family,
            parameter_class: self.parameter_class,
            context_window: self.context_window,
            vram_required_mb: self.vram_required_mb,
            ram_required_mb: self.ram_required_mb,
            cold_load_estimate_ms: self.cold_load_estimate_ms,
            supported_runtimes: self.supported_runtimes,
            supports_streaming: self.supports_streaming,
        }
    }
}

/// The whole configuration.
#[derive(Debug, PartialEq, Eq)]
pub struct AnemoiConfig {
    pub domains: Vec<(DomainId, DomainConfig)>,
    pub residency_groups: Vec<(ResidencyGroupId, ResidencyGroupConfig)>,
    pub models: Vec<(ModelId, ModelProfileConfig)>,
    pub runtimes: Vec<(RuntimeId, RuntimeConfig)>,
    pub continuity: ContinuityConfig,
}

/// The mathematical content of an [`AnemoiConfig`]: each table as a map from
/// identifier text to the value of its first entry.
pub struct AnemoiConfigView {
    pub domains: Map<Seq<char>, DomainConfigView>,
    pub residency_groups: Map<Seq<char>, ResidencyGroupConfigView>,
    pub models: Map<Seq<char>, ModelProfileConfigView>,
    pub runtimes: Map<Seq<char>, RuntimeConfigView>,
    pub continuity: ContinuityConfig,
}

/// A table held as entries, as a map: each key to the value of its first entry.
pub open spec fn entries_view<K: View<V = Seq<char>>, V: View>(entries: Seq<(K, V)>) -> Map<Seq<char>, V::V> {
    Map::new(|k: Seq<char>| has_key(entries, k), |k: Seq<char>| entries[first_entry(entries, k)].1@)
}

impl View for AnemoiConfig {
    type V = AnemoiConfigView;

    open spec fn view(&self) -> AnemoiConfigView {
        AnemoiConfigView {
            domains: entries_view(self.domains@),
            residency_groups: entries_view(self.residency_groups@),
            models: entries_view(self.models@),
            runtimes: entries_view(self.runtimes@),
            continuity: self.continuity,
        }
    }
}

/// Two tables whose entries agree one by one, in key and in view, are the
/// same map.
pub proof fn lemma_entries_view_pointwise<K: View<V = Seq<char>>, V: View>(a: Seq<(K, V)>, b: Seq<(K, V)>)
    requires
        a.len() == b.len(),
        forall|i: int| 0 <= i < a.len() ==> (#[trigger] a[i]).0@ == b[i].0@ && a[i].1@ == b[i].1@,
    ensures
        entries_view(a) == entries_view(b),
{
    assert forall|k: Seq<char>| has_key(a, k) == has_key(b, k) by {
        if has_key(a, k) {
            let i = choose|i: int| 0 <= i < a.len() && (#[trigger] a[i]).0@ == k;
            assert(b[i].0@ == k);
        }
        if has_key(b, k) {
            let i = choose|i: int| 0 <= i < b.len() && (#[trigger] b[i]).0@ == k;
            assert(a[i].0@ == k);
        }
    }
    assert forall|k: Seq<char>| has_key(a, k) implies first_entry(a, k) == first_entry(b, k) by {
        lemma_first_entry(a, k);
        lemma_first_entry(b, k);
        let f = first_entry(a, k);
        assert forall|j: int| 0 <= j < f implies (#[trigger] b[j]).0@ != k by {
            assert(a[j].0@ != k);
        }
        assert(is_first_entry(b, k, f));
    }
    assert(entries_view(a).dom() =~= entries_view(b).dom());
    assert forall|k: Seq<char>| #[trigger] entries_view(a).dom().contains(k) implies entries_view(a)[k] == entries_view(b)[k] by {
        let f = first_entry(a, k);
        lemma_first_entry(a, k);
        assert(a[f].1@ == b[f].1@);
    }
    assert(entries_view(a) =~= entries_view(b));
}

/// Appending an entry adds its key, unless the key is already there.
pub proof fn lemma_entries_view_push<K: View<V = Seq<char>>, V: View>(s: Seq<(K, V)>, e: (K, V))
    ensures
        entries_view(s.push(e)) == (if has_key(s, e.0@) {
            entries_view(s)
        } else {
            entries_view(s).insert(e.0@, e.1@)
        }),
{
    let t = s.push(e);
    assert forall|k: Seq<char>| has_key(t, k) == (has_key(s, k) || k == e.0@) by {
        if has_key(s, k) {
            let i = choose|i: int| 0 <= i < s.len() && (#[trigger] s[i]).0@ == k;
            assert(t[i] == s[i]);
        }
        if k == e.0@ {
            assert(t[s.len() as int] == e);
        }
        if has_key(t, k) {
            let i = choose|i: int| 0 <= i < t.len() && (#[trigger] t[i]).0@ == k;
            if i < s.len() {
                assert(s[i] == t[i]);
            }
        }
    }
    assert forall|k: Seq<char>| has_key(t, k) implies
        t[first_entry(t, k)].1@ == (if has_key(s, k) { s[first_entry(s, k)].1@ } else { e.1@ }) by {
        lemma_first_entry(t, k);
        if has_key(s, k) {
            lemma_first_entry(s, k);
            let f = first_entry(s, k);
            assert forall|j: int| 0 <= j < f implies (#[trigger] t[j]).0@ != k by {
                assert(t[j] == s[j]);
                assert(s[j].0@ != k);
            }
            assert(t[f] == s[f]);
            assert(is_first_entry(t, k, f));
        } else {
            assert(k == e.0@);
            assert forall|j: int| 0 <= j < s.len() implies (#[trigger] t[j]).0@ != k by {
                assert(t[j] == s[j]);
            }
            assert(is_first_entry(t, k, s.len() as int));
        }
    }
    if has_key(s, e.0@) {
        assert(entries_view(t) =~= entries_view(s));
    } else {
        assert(entries_view(t) =~= entries_view(s).insert(e.0@, e.1@));
    }
}

/// Replacing the first entry of a key replaces the key's value.
pub proof fn lemma_entries_view_update<K: View<V = Seq<char>>, V: View>(s: Seq<(K, V)>, i: int, e: (K, V))
    requires
        0 <= i < s.len(),
        is_first_entry(s, e.0@, i),
    ensures
        entries_view(s.update(i, e)) == entries_view(s).insert(e.0@, e.1@),
{
    let t = s.update(i, e);
    assert forall|j: int| 0 <= j < t.len() implies (#[trigger] t[j]).0@ == s[j].0@ by {}
    assert forall|k: Seq<char>| has_key(t, k) == has_key(s, k) by {
        if has_key(s, k) {
            let j = choose|j: int| 0 <= j < s.len() && (#[trigger] s[j]).0@ == k;
            assert(t[j].0@ == k);
        }
        if has_key(t, k) {
            let j = choose|j: int| 0 <= j < t.len() && (#[trigger] t[j]).0@ == k;
            assert(s[j].0@ == k);
        }
    }
    assert forall|k: Seq<char>| has_key(t, k) implies first_entry(t, k) == first_entry(s, k) by {
        lemma_first_entry(s, k);
        lemma_first_entry(t, k);
        let f = first_entry(s, k);
        assert forall|j: int| 0 <= j < f implies (#[trigger] t[j]).0@ != k by {
            assert(s[j].0@ != k);
        }
        assert(is_first_entry(t, k, f));
    }
    assert forall|k: Seq<char>| has_key(s, k) && k != e.0@ implies first_entry(s, k) != i by {
        lemma_first_entry(s, k);
    }
    lemma_first_entry(s, e.0@);
    assert(has_key(s, e.0@)) by {
        assert(s[i].0@ == e.0@);
    }
    assert(entries_view(t).dom() =~= entries_view(s).insert(e.0@, e.1@).dom());
    assert forall|k: Seq<char>| #[trigger] entries_view(t).dom().contains(k) implies
        entries_view(t)[k] == entries_view(s).insert(e.0@, e.1@)[k] by {
        let f = first_entry(s, k);
        lemma_first_entry(s, k);
        if k == e.0@ {
            assert(f == i);
            assert(t[i] == e);
        } else {
            assert(f != i);
            assert(t[f] == s[f]);
        }
    }
    assert(entries_view(t) =~= entries_view(s).insert(e.0@, e.1@));
}

impl CopyView for DomainConfig {
    fn copy_view(&self) -> (r: Self) {
        self.clone()
    }
}

impl CopyView for ResidencyGroupConfig {
    fn copy_view(&self) -> (r: Self) {
        self.clone()
    }
}

impl CopyView for ModelProfileConfig {
    fn copy_view(&self) -> (r: Self) {
        self.clone()
    }
}

impl CopyView for RuntimeConfig {
    fn copy_view(&self) -> (r: Self) {
        self.clone()
    }
}

/// A copy of a table, entry by entry.
pub fn copy_entries<K: IdKey, V: CopyView>(v: &Vec<(K, V)>) -> (r: Vec<(K, V)>)
    ensures
        r@.len() == v@.len(),
        forall|i: int| 0 <= i < v@.len() ==> (#[trigger] r@[i]).0@ == v@[i].0@ && r@[i].1@ == v@[i].1@,
        entries_view(r@) == entries_view(v@),
{
    let mut out: Vec<(K, V)> = Vec::new();
    let mut i: usize = 0;
    while i < v.len()
        invariant
            0 <= i <= v@.len(),
            out@.len() == i,
            forall|j: int| 0 <= j < i ==> (#[trigger] out@[j]).0@ == v@[j].0@ && out@[j].1@ == v@[j].1@,
        decreases v@.len() - i,
    {
        let e = (v[i].0.copy_key(), v[i].1.copy_view());
        out.push(e);
        i = i + 1;
    }
    proof {
        lemma_entries_view_pointwise(out@, v@);
    }
    out
}

/// Sets the value of `key`: replaces its first entry, or appends one.
pub fn set_entry<K: IdKey, V: View>(entries: &mut Vec<(K, V)>, key: K, value: V)
    ensures
        entries_view(final(entries)@) == entries_view(old(entries)@).insert(key@, value@),
{
    match find_entry(entries, key.key()) {
        Some(i) => {
            proof {
                lemma_entries_view_update(entries@, i as int, (key, value));
            }
            entries.set(i, (key, value));
        },
        None => {
            proof {
                lemma_entries_view_push(entries@, (key, value));
            }
            entries.push((key, value));
        },
    }
}

/// The table without any entry for `key`.
pub fn remove_key<K: IdKey, V: View>(entries: Vec<(K, V)>, key: &str) -> (r: Vec<(K, V)>)
    ensures
        entries_view(r@) == entries_view(entries@).remove(key@),
{
    let ghost orig = entries@;
    let mut rest = entries;
    let n: usize = rest.len();
    let mut out: Vec<(K, V)> = Vec::new();
    let mut i: usize = 0;
    assert(orig.take(0) =~= Seq::<(K, V)>::empty());
    assert(entries_view(out@) =~= entries_view(orig.take(0)).remove(key@));
    while rest.len() > 0
        invariant
            0 <= i <= orig.len(),
            orig.len() == n,
            rest@ == orig.skip(i as int),
            entries_view(out@) == entries_view(orig.take(i as int)).remove(key@),
        decreases rest@.len(),
    {
        let e = rest.remove(0);
        assert(e == orig[i as int]);
        assert(rest@ =~= orig.skip(i as int + 1));
        assert(orig.take(i as int + 1) =~= orig.take(i as int).push(e));
        let ghost pre = orig.take(i as int);
        proof {
            lemma_entries_view_push(pre, e);
        }
        if !crate::text::str_eq(e.0.key(), key) {
            proof {
                lemma_entries_view_push(out@, e);
                assert(has_key(out@, e.0@) == entries_view(out@).dom().contains(e.0@));
                assert(has_key(pre, e.0@) == entries_view(pre).dom().contains(e.0@));
            }
            out.push(e);
            assert(entries_view(out@) =~= entries_view(orig.take(i as int + 1)).remove(key@));
        } else {
            assert(entries_view(out@) =~= entries_view(orig.take(i as int + 1)).remove(key@));
        }
        i = i + 1;
    }
    assert(orig.take(i as int) =~= orig);
    out
}

impl Clone for AnemoiConfig {
    fn clone(&self) -> (r: Self)
        ensures
            r@ == self@,
            r.domains@.len() == self.domains@.len(),
    {
        AnemoiConfig {
            domains: copy_entries(&self.domains),
            residency_groups: copy_entries(&self.residency_groups),
            models: copy_entries(&self.models),
            runtimes: copy_entries(&self.runtimes),
            continuity: self.continuity,
        }
    }
}

/// Whether entry `i` of `entries` is the first with its key; repeated keys
/// are checked once.
pub fn first_of_key<K: IdKey, V>(entries: &Vec<(K, V)>, i: usize) -> (r: bool)
    requires
        i < entries@.len(),
    ensures
        r == is_first_entry(entries@, entries@[i as int].0@, i as int),
        r == is_first_entry(entries@.take(i as int + 1), entries@[i as int].0@, i as int),
{
    let ghost k = entries@[i as int].0@;
    proof {
        lemma_first_entry(entries@, k);
        let t = entries@.take(i as int + 1);
        assert(t[i as int] == entries@[i as int]);
        if is_first_entry(entries@, k, i as int) {
            assert forall|j: int| 0 <= j < i implies (#[trigger] t[j]).0@ != k by {
                assert(t[j] == entries@[j]);
            }
        }
        if is_first_entry(t, k, i as int) {
            assert forall|j: int| 0 <= j < i implies (#[trigger] entries@[j]).0@ != k by {
                assert(t[j] == entries@[j]);
            }
        }
    }
    match find_entry(entries, entries[i].0.key()) {
        Some(f) => f == i,
        None => false,
    }
}

} // verus!
