//! Operator governance layered over the baseline configuration.
//!
//! Operators curate rosters, roster flags, domain-to-roster assignments and
//! per-model profile metadata as [`GovernanceOverrides`]; [`apply_overrides`]
//! merges them onto the baseline to give the effective configuration. An
//! operator's value always wins over baseline or inferred metadata for the
//! same field.

use vstd::prelude::*;
use vstd::string::*;
use crate::ids::{ModelId, RuntimeId, ResidencyGroupId, DomainId};
use crate::types::{group_ids_view, model_ids_view, runtime_ids_view, strings_view, clone_group_ids, clone_model_ids, clone_runtime_ids, clone_strings};
use crate::config::{
    AnemoiConfig, AnemoiConfigView, DomainConfig, DomainConfigView, ResidencyGroupConfig,
    ResidencyGroupConfigView, ModelProfileConfig, ModelProfileConfigView, IdKey, CopyView,
    entries_view, has_key, is_first_entry, first_entry, find_entry, lookup, lemma_first_entry,
    lemma_entries_view_push, lemma_entries_view_update, set_entry, remove_key, first_of_key, copy_entries,
};
use crate::policy::profile_utils::{spec_family, spec_parameter_class, family_of, extract_parameter_class, spec_synthesized_profile};
use crate::text::{is_digit, char_is_digit, chars_of, digits_value, parse_digits, decimal, push_u64};

verus! {

/// Where an effective metadata value came from.
#[derive(Debug, PartialEq, Eq, Structural, Clone, Copy)]
pub enum MetadataSource {
    /// Reported by the runtime catalog.
    Runtime,
    /// Inferred from the model id.
    Inferred,
    /// Set by an operator; takes precedence over all the others.
    OperatorOverride,
    /// Declared in the baseline configuration.
    Config,
}

/// An operator-editable residency group (roster), shaped like
/// [`ResidencyGroupConfig`].
#[derive(Debug, PartialEq, Eq)]
pub struct RosterOverride {
    pub purpose: Vec<String>,
    pub models: Vec<ModelId>,
    pub keep_hot: bool,
    pub allow_background_load: bool,
    pub pinned: bool,
}

impl View for RosterOverride {
    type V = ResidencyGroupConfigView;

    open spec fn view(&self) -> ResidencyGroupConfigView {
        ResidencyGroupConfigView {
            purpose: strings_view(self.purpose@),
            models: model_ids_view(self.models@),
            keep_hot: self.keep_hot,
            allow_background_load: self.allow_background_load,
            pinned: self.pinned,
        }
    }
}

impl Default for RosterOverride {
    fn default() -> (r: Self)
        ensures
            r.purpose@.len() == 0,
            r.models@.len() == 0,
            !r.keep_hot,
            !r.allow_background_load,
            !r.pinned,
    {
        RosterOverride { purpose: Vec::new(), models: Vec::new(), keep_hot: false, allow_background_load: false, pinned: false }
    }
}

impl Clone for RosterOverride {
    fn clone(&self) -> (r: Self)
        ensures
            r@ == self@,
    {
        RosterOverride {
            purpose: clone_strings(&self.purpose),
            models: clone_model_ids(&self.models),
            keep_hot: self.keep_hot,
            allow_background_load: self.allow_background_load,
            pinned: self.pinned,
        }
    }
}

impl CopyView for RosterOverride {
    fn copy_view(&self) -> (r: Self) {
        self.clone()
    }
}

impl RosterOverride {
    /// The residency-group configuration this roster describes.
    pub fn into_config(self) -> (r: ResidencyGroupConfig)
        ensures
            r@ == self@,
    {
        ResidencyGroupConfig {
            purpose: self.purpose,
            models: self.models,
            keep_hot: self.keep_hot,
            allow_background_load: self.allow_background_load,
            pinned: self.pinned,
        }
    }

    /// The roster describing a residency-group configuration.
    pub fn from_config(config: &ResidencyGroupConfig) -> (r: Self)
        ensures
            r@ == config@,
    {
        RosterOverride {
            purpose: clone_strings(&config.purpose),
            models: clone_model_ids(&config.models),
            keep_hot: config.keep_hot,
            allow_background_load: config.allow_background_load,
            pinned: config.pinned,
        }
    }
}

/// Operator-set profile fields; a field left unset falls through to the
/// baseline or inferred value.
#[derive(Debug, PartialEq, Eq)]
pub struct ModelProfileOverride {
    pub family: Option<String>,
    pub parameter_class: Option<String>,
    pub context_window: Option<u32>,
    pub vram_required_mb: Option<u64>,
    pub ram_required_mb: Option<u64>,
    pub cold_load_estimate_ms: Option<u64>,
    pub supports_streaming: Option<bool>,
    pub supported_runtimes: Option<Vec<RuntimeId>>,
}

/// The mathematical content of a [`ModelProfileOverride`].
pub struct ModelProfileOverrideView {
    pub family: Option<Seq<char>>,
    pub parameter_class: Option<Seq<char>>,
    pub context_window: Option<u32>,
    pub vram_required_mb: Option<u64>,
    pub ram_required_mb: Option<u64>,
    pub cold_load_estimate_ms: Option<u64>,
    pub supports_streaming: Option<bool>,
    pub supported_runtimes: Option<Seq<Seq<char>>>,
}

/// The view of an optional string.
pub open spec fn opt_text(s: Option<String>) -> Option<Seq<char>> {
    match s { Some(x) => Some(x@), None => None }
}

impl View for ModelProfileOverride {
    type V = ModelProfileOverrideView;

    open spec fn view(&self) -> ModelProfileOverrideView {
        ModelProfileOverrideView {
            family: opt_text(self.family),
            parameter_class: opt_text(self.parameter_class),
            context_window: self.context_window,
            vram_required_mb: self.vram_required_mb,
            ram_required_mb: self.ram_required_mb,
            cold_load_estimate_ms: self.cold_load_estimate_ms,
            supports_streaming: self.supports_streaming,
            supported_runtimes: match self.supported_runtimes { Some(r) => Some(runtime_ids_view(r@)), None => None },
        }
    }
}

fn clone_opt_text(s: &Option<String>) -> (r: Option<String>)
    ensures
        opt_text(r) == opt_text(*s),
{
    match s { Some(x) => Some(x.clone()), None => None }
}

impl Default for ModelProfileOverride {
    fn default() -> (r: Self)
        ensures
            r.family is None,
            r.parameter_class is None,
            r.context_window is None,
            r.vram_required_mb is None,
            r.ram_required_mb is None,
            r.cold_load_estimate_ms is None,
            r.supports_streaming is None,
            r.supported_runtimes is None,
    {
        ModelProfileOverride {
            family: None,
            parameter_class: None,
            context_window: None,
            vram_required_mb: None,
            ram_required_mb: None,
            cold_load_estimate_ms: None,
            supports_streaming: None,
            supported_runtimes: None,
        }
    }
}

impl Clone for ModelProfileOverride {
    fn clone(&self) -> (r: Self)
        ensures
            r@ == self@,
    {
        ModelProfileOverride {
            family: clone_opt_text(&self.family),
            parameter_class: clone_opt_text(&self.parameter_class),
            context_window: self.context_window,
            vram_required_mb: self.vram_required_mb,
            ram_required_mb: self.ram_required_mb,
            cold_load_estimate_ms: self.cold_load_estimate_ms,
            supports_streaming: self.supports_streaming,
            supported_runtimes: match &self.supported_runtimes { Some(r) => Some(clone_runtime_ids(r)), None => None },
        }
    }
}

impl CopyView for ModelProfileOverride {
    fn copy_view(&self) -> (r: Self) {
        self.clone()
    }
}

impl ModelProfileOverride {
    /// Whether the operator set no field at all.
    pub fn is_empty(&self) -> (r: bool)
        ensures
            r == (self.family is None && self.parameter_class is None && self.context_window is None
                && self.vram_required_mb is None && self.ram_required_mb is None
                && self.cold_load_estimate_ms is None && self.supports_streaming is None
                && self.supported_runtimes is None),
    {
        self.family.is_none() && self.parameter_class.is_none() && self.context_window.is_none()
            && self.vram_required_mb.is_none() && self.ram_required_mb.is_none()
            && self.cold_load_estimate_ms.is_none() && self.supports_streaming.is_none()
            && self.supported_runtimes.is_none()
    }
}

impl CopyView for Vec<ResidencyGroupId> {
    fn copy_view(&self) -> (r: Self) {
        clone_group_ids(self)
    }
}

/// Operator overrides, kept apart from the baseline. Each table is held as
/// `(id, value)` entries; an id that repeats counts once, as its first entry.
#[derive(Debug, PartialEq, Eq)]
pub struct GovernanceOverrides {
    /// Residency groups created or updated by an operator: an id of the
    /// baseline is replaced, a new id adds a group.
    pub residency_groups: Vec<(ResidencyGroupId, RosterOverride)>,
    /// Residency groups the operator removed.
    pub removed_residency_groups: Vec<ResidencyGroupId>,
    /// Roster lists that replace a baseline domain's rosters.
    pub domain_rosters: Vec<(DomainId, Vec<ResidencyGroupId>)>,
    /// Per-model profile overrides.
    pub model_profiles: Vec<(ModelId, ModelProfileOverride)>,
}

/// The mathematical content of [`GovernanceOverrides`].
pub struct GovernanceOverridesView {
    pub residency_groups: Map<Seq<char>, ResidencyGroupConfigView>,
    pub removed_residency_groups: Set<Seq<char>>,
    pub domain_rosters: Map<Seq<char>, Seq<Seq<char>>>,
    pub model_profiles: Map<Seq<char>, ModelProfileOverrideView>,
}

impl View for GovernanceOverrides {
    type V = GovernanceOverridesView;

    open spec fn view(&self) -> GovernanceOverridesView {
        GovernanceOverridesView {
            residency_groups: entries_view(self.residency_groups@),
            removed_residency_groups: group_ids_view(self.removed_residency_groups@).to_set(),
            domain_rosters: entries_view(self.domain_rosters@).map_values(|v: Seq<ResidencyGroupId>| group_ids_view(v)),
            model_profiles: entries_view(self.model_profiles@),
        }
    }
}

impl Default for GovernanceOverrides {
    fn default() -> (r: Self)
        ensures
            r.residency_groups@.len() == 0,
            r.removed_residency_groups@.len() == 0,
            r.domain_rosters@.len() == 0,
            r.model_profiles@.len() == 0,
    {
        GovernanceOverrides {
            residency_groups: Vec::new(),
            removed_residency_groups: Vec::new(),
            domain_rosters: Vec::new(),
            model_profiles: Vec::new(),
        }
    }
}

impl GovernanceOverrides {
    /// Whether no override of any kind is set.
    pub fn is_empty(&self) -> (r: bool)
        ensures
            r == (self.residency_groups@.len() == 0 && self.removed_residency_groups@.len() == 0
                && self.domain_rosters@.len() == 0 && self.model_profiles@.len() == 0),
    {
        self.residency_groups.len() == 0 && self.removed_residency_groups.len() == 0
            && self.domain_rosters.len() == 0 && self.model_profiles.len() == 0
    }
}

impl Clone for GovernanceOverrides {
    fn clone(&self) -> (r: Self)
        ensures
            r@ == self@,
    {
        let removed = clone_group_ids(&self.removed_residency_groups);
        GovernanceOverrides {
            residency_groups: crate::config::copy_entries(&self.residency_groups),
            removed_residency_groups: removed,
            domain_rosters: crate::config::copy_entries(&self.domain_rosters),
            model_profiles: crate::config::copy_entries(&self.model_profiles),
        }
    }
}

// ---------------------------------------------------------------------------
// Inference from model ids.

/// The family and parameter class inferred from a model id: the leading run
/// of alphabetic characters (`unknown` when there is none), and the first run
/// of digits followed by `b` or `B`, written with `b` (`unknown` when there
/// is none). The same inference synthesises live-roster profiles.
pub fn infer_family_and_class(model_id: &str) -> (r: (String, String))
    ensures
        r.0@ == spec_family(model_id@),
        r.1@ == spec_parameter_class(model_id@),
{
    (family_of(model_id), extract_parameter_class(model_id))
}

/// Inference agrees with profile synthesis: the family and parameter class
/// inferred for a model id are those of the profile synthesised for it,
/// whichever runtime reports the model.
pub proof fn law_inference_agrees_with_synthesis(model_id: Seq<char>, runtime_id: Seq<char>)
    ensures
        spec_synthesized_profile(model_id, runtime_id).family == spec_family(model_id),
        spec_synthesized_profile(model_id, runtime_id).parameter_class == spec_parameter_class(model_id),
{
}

/// The leading run of ASCII digits of `s`.
pub open spec fn leading_digits(s: Seq<char>) -> Seq<char>
    decreases s.len(),
{
    if s.len() > 0 && is_digit(s[0]) {
        seq![s[0]] + leading_digits(s.drop_first())
    } else {
        Seq::empty()
    }
}

/// The billions of parameters of a parameter class such as `35b`: its
/// leading digits as a number; none without leading digits or when the
/// number does not fit a `u32`.
pub open spec fn spec_billions(parameter_class: Seq<char>) -> Option<u32> {
    let d = leading_digits(parameter_class);
    if d.len() == 0 || digits_value(d) > u32::MAX {
        None
    } else {
        Some(digits_value(d) as u32)
    }
}

proof fn lemma_leading_digits_prefix(s: Seq<char>, n: int)
    requires
        0 <= n <= s.len(),
        forall|j: int| 0 <= j < n ==> is_digit(#[trigger] s[j]),
        n == s.len() || !is_digit(s[n]),
    ensures
        leading_digits(s) == s.take(n),
    decreases n,
{
    if n == 0 {
        assert(s.take(0) =~= Seq::<char>::empty());
    } else {
        let t = s.drop_first();
        assert forall|j: int| 0 <= j < n - 1 implies is_digit(#[trigger] t[j]) by {
            assert(t[j] == s[j + 1]);
        }
        if n - 1 < t.len() {
            assert(t[n - 1] == s[n]);
        }
        lemma_leading_digits_prefix(t, n - 1);
        assert(seq![s[0]] + t.take(n - 1) =~= s.take(n));
    }
}

/// The billions of parameters of a parameter class (see [`spec_billions`]).
pub fn parameter_billions(parameter_class: &str) -> (r: Option<u32>)
    ensures
        r == spec_billions(parameter_class@),
{
    let v = chars_of(parameter_class);
    let mut n: usize = 0;
    while n < v.len() && char_is_digit(v[n])
        invariant
            0 <= n <= v@.len(),
            v@ == parameter_class@,
            forall|j: int| 0 <= j < n ==> is_digit(#[trigger] v@[j]),
        decreases v@.len() - n,
    {
        n = n + 1;
    }
    proof {
        lemma_leading_digits_prefix(v@, n as int);
    }
    if n == 0 {
        return None;
    }
    match parse_digits(&v, 0, n, 4294967295) {
        Some(x) => {
            assert(v@.subrange(0, n as int) =~= v@.take(n as int));
            Some(x as u32)
        },
        None => {
            assert(v@.subrange(0, n as int) =~= v@.take(n as int));
            None
        },
    }
}

// ---------------------------------------------------------------------------
// Merging.

/// The override's value, else the baseline's, else `fallback`.
pub open spec fn pick<T>(over: Option<T>, base: Option<T>, fallback: T) -> T {
    match over {
        Some(x) => x,
        None => match base { Some(y) => y, None => fallback },
    }
}

/// The override's value, else the baseline's (which may be unset).
pub open spec fn pick_opt<T>(over: Option<T>, base: Option<Option<T>>) -> Option<T> {
    match over {
        Some(x) => Some(x),
        None => match base { Some(y) => y, None => None },
    }
}

/// A profile override merged onto an optional baseline profile: each field
/// the operator set wins; unset fields come from the baseline, or, without
/// one, family and class from the model id and no runtimes.
pub open spec fn spec_merge_profile(
    id: Seq<char>,
    base: Option<ModelProfileConfigView>,
    o: ModelProfileOverrideView,
) -> ModelProfileConfigView {
    ModelProfileConfigView {
        family: pick(o.family, match base { Some(b) => Some(b.family), None => None }, spec_family(id)),
        parameter_class: pick(o.parameter_class, match base { Some(b) => Some(b.parameter_class), None => None },
            spec_parameter_class(id)),
        context_window: pick_opt(o.context_window, match base { Some(b) => Some(b.context_window), None => None }),
        vram_required_mb: pick_opt(o.vram_required_mb, match base { Some(b) => Some(b.vram_required_mb), None => None }),
        ram_required_mb: pick_opt(o.ram_required_mb, match base { Some(b) => Some(b.ram_required_mb), None => None }),
        cold_load_estimate_ms: pick_opt(o.cold_load_estimate_ms,
            match base { Some(b) => Some(b.cold_load_estimate_ms), None => None }),
        supported_runtimes: pick(o.supported_runtimes, match base { Some(b) => Some(b.supported_runtimes), None => None },
            Seq::empty()),
        supports_streaming: pick_opt(o.supports_streaming, match base { Some(b) => Some(b.supports_streaming), None => None }),
    }
}

/// Merges a profile override onto an optional baseline profile (see
/// [`spec_merge_profile`]).
pub fn merge_profile(
    model_id: &ModelId,
    base: Option<&ModelProfileConfig>,
    profile_override: &ModelProfileOverride,
) -> (r: ModelProfileConfig)
    ensures
        r@ == spec_merge_profile(model_id@, match base { Some(b) => Some(b@), None => None }, profile_override@),
{
    let (inferred_family, inferred_class) = infer_family_and_class(model_id.as_str());
    let o = profile_override;
    let family = match &o.family {
        Some(f) => f.clone(),
        None => match base { Some(b) => b.family.clone(), None => inferred_family },
    };
    let parameter_class = match &o.parameter_class {
        Some(c) => c.clone(),
        None => match base { Some(b) => b.parameter_class.clone(), None => inferred_class },
    };
    let context_window = match o.context_window {
        Some(x) => Some(x),
        None => match base { Some(b) => b.context_window, None => None },
    };
    let vram_required_mb = match o.vram_required_mb {
        Some(x) => Some(x),
        None => match base { Some(b) => b.vram_required_mb, None => None },
    };
    let ram_required_mb = match o.ram_required_mb {
        Some(x) => Some(x),
        None => match base { Some(b) => b.ram_required_mb, None => None },
    };
    let cold_load_estimate_ms = match o.cold_load_estimate_ms {
        Some(x) => Some(x),
        None => match base { Some(b) => b.cold_load_estimate_ms, None => None },
    };
    let supported_runtimes = match &o.supported_runtimes {
        Some(r) => clone_runtime_ids(r),
        None => match base { Some(b) => clone_runtime_ids(&b.supported_runtimes), None => Vec::new() },
    };
    let supports_streaming = match o.supports_streaming {
        Some(x) => Some(x),
        None => match base { Some(b) => b.supports_streaming, None => None },
    };
    let r = ModelProfileConfig {
        family,
        parameter_class,
        context_window,
        vram_required_mb,
        ram_required_mb,
        cold_load_estimate_ms,
        supported_runtimes,
        supports_streaming,
    };
    assert(r@.supported_runtimes =~= spec_merge_profile(model_id@, match base { Some(b) => Some(b@), None => None }, profile_override@).supported_runtimes);
    r
}

/// The domains after roster replacement: a domain the overrides name gets
/// their roster list and keeps its live roster; domains are never added.
pub open spec fn domains_after(
    base: Map<Seq<char>, DomainConfigView>,
    rosters: Map<Seq<char>, Seq<Seq<char>>>,
) -> Map<Seq<char>, DomainConfigView> {
    Map::new(
        |k: Seq<char>| base.dom().contains(k),
        |k: Seq<char>| if rosters.dom().contains(k) {
            DomainConfigView { rosters: rosters[k], live_roster: base[k].live_roster }
        } else {
            base[k]
        },
    )
}

/// The profiles the overrides produce, each merged onto the baseline's
/// profile of the same model.
pub open spec fn merged_profiles(
    base: Map<Seq<char>, ModelProfileConfigView>,
    profiles: Map<Seq<char>, ModelProfileOverrideView>,
) -> Map<Seq<char>, ModelProfileConfigView> {
    Map::new(
        |k: Seq<char>| profiles.dom().contains(k),
        |k: Seq<char>| spec_merge_profile(k, if base.dom().contains(k) { Some(base[k]) } else { None }, profiles[k]),
    )
}

/// The effective configuration: the baseline with the overrides applied.
/// Groups are inserted or replaced by id and then the removed ones dropped;
/// named domains take their new roster lists; profile overrides are merged
/// onto the baseline profiles; runtimes and continuity are the baseline's.
pub open spec fn spec_apply(base: AnemoiConfigView, ov: GovernanceOverridesView) -> AnemoiConfigView {
    AnemoiConfigView {
        domains: domains_after(base.domains, ov.domain_rosters),
        residency_groups: base.residency_groups.union_prefer_right(ov.residency_groups).remove_keys(ov.removed_residency_groups),
        models: base.models.union_prefer_right(merged_profiles(base.models, ov.model_profiles)),
        runtimes: base.runtimes,
        continuity: base.continuity,
    }
}

proof fn lemma_push_to_set<A>(s: Seq<A>, x: A)
    ensures
        s.push(x).to_set() == s.to_set().insert(x),
{
    assert forall|y: A| s.push(x).to_set().contains(y) == s.to_set().insert(x).contains(y) by {
        if s.push(x).contains(y) {
            let k = choose|k: int| 0 <= k < s.push(x).len() && s.push(x)[k] == y;
            if k < s.len() {
                assert(s[k] == y);
                assert(s.contains(y));
            }
        }
        if s.contains(y) {
            let k = choose|k: int| 0 <= k < s.len() && s[k] == y;
            assert(s.push(x)[k] == y);
        }
        if y == x {
            assert(s.push(x)[s.len() as int] == x);
        }
    }
    assert(s.push(x).to_set() =~= s.to_set().insert(x));
}

proof fn lemma_take_push<T>(s: Seq<T>, i: int)
    requires
        0 <= i < s.len(),
    ensures
        s.take(i + 1) == s.take(i).push(s[i]),
{
    assert(s.take(i + 1) =~= s.take(i).push(s[i]));
}

proof fn lemma_first_in_prefix<K: View<V = Seq<char>>, V: View>(s: Seq<(K, V)>, i: int)
    requires
        0 <= i < s.len(),
    ensures
        is_first_entry(s.take(i + 1), s[i].0@, i) == !has_key(s.take(i), s[i].0@),
{
    let t = s.take(i + 1);
    let p = s.take(i);
    let k = s[i].0@;
    assert(t[i] == s[i]);
    if has_key(p, k) {
        let j = choose|j: int| 0 <= j < p.len() && (#[trigger] p[j]).0@ == k;
        assert(t[j] == p[j]);
    } else {
        assert forall|j: int| 0 <= j < i implies (#[trigger] t[j]).0@ != k by {
            assert(t[j] == p[j]);
        }
    }
}

/// Applies governance overrides to a baseline configuration (see
/// [`spec_apply`]); the baseline is left as it was.
pub fn apply_overrides(baseline: &AnemoiConfig, overrides: &GovernanceOverrides) -> (r: AnemoiConfig)
    ensures
        r@ == spec_apply(baseline@, overrides@),
{
    let mut eff = baseline.clone();
    let ghost base = baseline@;
    let ghost ov = overrides@;

    // Residency groups: insert or replace by id.
    let ghost rg = overrides.residency_groups@;
    let mut i: usize = 0;
    assert(entries_view(rg.take(0)) =~= Map::<Seq<char>, ResidencyGroupConfigView>::empty());
    assert(base.residency_groups.union_prefer_right(entries_view(rg.take(0))) =~= base.residency_groups);
    while i < overrides.residency_groups.len()
        invariant
            0 <= i <= rg.len(),
            rg == overrides.residency_groups@,
            base == baseline@,
            eff@.domains == base.domains,
            eff@.models == base.models,
            eff@.runtimes == base.runtimes,
            eff@.continuity == base.continuity,
            eff@.residency_groups == base.residency_groups.union_prefer_right(entries_view(rg.take(i as int))),
        decreases rg.len() - i,
    {
        proof {
            lemma_take_push(rg, i as int);
            lemma_entries_view_push(rg.take(i as int), rg[i as int]);
            lemma_first_in_prefix(rg, i as int);
        }
        if first_of_key(&overrides.residency_groups, i) {
            let e = &overrides.residency_groups[i];
            let g = e.1.clone().into_config();
            set_entry(&mut eff.residency_groups, e.0.copy_key(), g);
            assert(eff@.residency_groups =~= base.residency_groups.union_prefer_right(entries_view(rg.take(i as int + 1))));
        }
        i = i + 1;
    }
    assert(rg.take(rg.len() as int) =~= rg);

    // Removed groups.
    let ghost rm = group_ids_view(overrides.removed_residency_groups@);
    let ghost merged = eff@.residency_groups;
    let mut i: usize = 0;
    assert(rm.take(0).to_set() =~= Set::<Seq<char>>::empty());
    assert(merged.remove_keys(Set::<Seq<char>>::empty()) =~= merged);
    while i < overrides.removed_residency_groups.len()
        invariant
            0 <= i <= rm.len(),
            rm == group_ids_view(overrides.removed_residency_groups@),
            base == baseline@,
            eff@.domains == base.domains,
            eff@.models == base.models,
            eff@.runtimes == base.runtimes,
            eff@.continuity == base.continuity,
            eff@.residency_groups == merged.remove_keys(rm.take(i as int).to_set()),
        decreases rm.len() - i,
    {
        let id = &overrides.removed_residency_groups[i];
        let mut groups: Vec<(ResidencyGroupId, ResidencyGroupConfig)> = Vec::new();
        std::mem::swap(&mut groups, &mut eff.residency_groups);
        eff.residency_groups = remove_key(groups, id.key());
        proof {
            assert(rm.take(i as int + 1) =~= rm.take(i as int).push(id@));
            lemma_push_to_set(rm.take(i as int), id@);
        }
        assert(eff@.residency_groups =~= merged.remove_keys(rm.take(i as int + 1).to_set()));
        i = i + 1;
    }
    assert(rm.take(rm.len() as int) =~= rm);

    // Domain rosters.
    let ghost dr = overrides.domain_rosters@;
    let mut i: usize = 0;
    assert(entries_view(dr.take(0)).map_values(|v: Seq<ResidencyGroupId>| group_ids_view(v))
        =~= Map::<Seq<char>, Seq<Seq<char>>>::empty());
    assert(domains_after(base.domains, Map::<Seq<char>, Seq<Seq<char>>>::empty()) =~= base.domains);
    while i < overrides.domain_rosters.len()
        invariant
            0 <= i <= dr.len(),
            dr == overrides.domain_rosters@,
            base == baseline@,
            eff@.models == base.models,
            eff@.runtimes == base.runtimes,
            eff@.continuity == base.continuity,
            eff@.residency_groups == spec_apply(base, ov).residency_groups,
            eff@.domains == domains_after(base.domains,
                entries_view(dr.take(i as int)).map_values(|v: Seq<ResidencyGroupId>| group_ids_view(v))),
        decreases dr.len() - i,
    {
        proof {
            lemma_take_push(dr, i as int);
            lemma_entries_view_push(dr.take(i as int), dr[i as int]);
            lemma_first_in_prefix(dr, i as int);
        }
        let ghost before = eff@.domains;
        let ghost prev = entries_view(dr.take(i as int)).map_values(|v: Seq<ResidencyGroupId>| group_ids_view(v));
        let ghost next = entries_view(dr.take(i as int + 1)).map_values(|v: Seq<ResidencyGroupId>| group_ids_view(v));
        if first_of_key(&overrides.domain_rosters, i) {
            let e = &overrides.domain_rosters[i];
            let ghost k = e.0@;
            assert(next =~= prev.insert(e.0@, group_ids_view(e.1@)));
            match find_entry(&eff.domains, e.0.key()) {
                Some(j) => {
                    let live = match &eff.domains[j].1.live_roster { Some(x) => Some(x.clone()), None => None };
                    let d = DomainConfig { rosters: clone_group_ids(&e.1), live_roster: live };
                    let key = eff.domains[j].0.copy_key();
                    proof {
                        lemma_first_entry(eff.domains@, e.0@);
                        assert(eff@.domains.dom().contains(k));
                        assert(eff@.domains[k] == eff.domains@[j as int].1@);
                        assert(d@.live_roster == base.domains[k].live_roster);
                        assert(d@.rosters == next[k]);
                        lemma_entries_view_update(eff.domains@, j as int, (key, d));
                    }
                    eff.domains.set(j, (key, d));
                    assert(eff@.domains =~= domains_after(base.domains, next)) by {
                        assert forall|k2: Seq<char>| #[trigger] eff@.domains.dom().contains(k2) implies
                            eff@.domains[k2] == domains_after(base.domains, next)[k2] by {
                            if k2 != k {
                                assert(next.dom().contains(k2) == prev.dom().contains(k2));
                                if prev.dom().contains(k2) {
                                    assert(next[k2] == prev[k2]);
                                }
                            }
                        }
                    }
                },
                None => {
                    assert(!eff@.domains.dom().contains(k));
                    assert(!base.domains.dom().contains(k));
                    assert(eff@.domains =~= domains_after(base.domains, next)) by {
                        assert forall|k2: Seq<char>| #[trigger] eff@.domains.dom().contains(k2) implies
                            eff@.domains[k2] == domains_after(base.domains, next)[k2] by {
                            assert(k2 != k);
                            assert(next.dom().contains(k2) == prev.dom().contains(k2));
                            if prev.dom().contains(k2) {
                                assert(next[k2] == prev[k2]);
                            }
                        }
                    }
                },
            }
        } else {
            assert(next =~= prev);
        }
        i = i + 1;
    }
    assert(dr.take(dr.len() as int) =~= dr);

    // Model profiles.
    let ghost mp = overrides.model_profiles@;
    let mut i: usize = 0;
    assert(merged_profiles(base.models, entries_view(mp.take(0))) =~= Map::<Seq<char>, ModelProfileConfigView>::empty());
    assert(base.models.union_prefer_right(Map::<Seq<char>, ModelProfileConfigView>::empty()) =~= base.models);
    while i < overrides.model_profiles.len()
        invariant
            0 <= i <= mp.len(),
            mp == overrides.model_profiles@,
            base == baseline@,
            ov == overrides@,
            eff@.runtimes == base.runtimes,
            eff@.continuity == base.continuity,
            eff@.residency_groups == spec_apply(base, ov).residency_groups,
            eff@.domains == spec_apply(base, ov).domains,
            eff@.models == base.models.union_prefer_right(merged_profiles(base.models, entries_view(mp.take(i as int)))),
        decreases mp.len() - i,
    {
        proof {
            lemma_take_push(mp, i as int);
            lemma_entries_view_push(mp.take(i as int), mp[i as int]);
            lemma_first_in_prefix(mp, i as int);
        }
        if first_of_key(&overrides.model_profiles, i) {
            let e = &overrides.model_profiles[i];
            let ghost k = e.0@;
            let base_profile = match find_entry(&eff.models, e.0.key()) {
                Some(j) => Some(&eff.models[j].1),
                None => None,
            };
            proof {
                assert(!entries_view(mp.take(i as int)).dom().contains(k));
                match base_profile {
                    Some(b) => {
                        assert(eff@.models.dom().contains(k));
                        assert(eff@.models[k] == b@);
                        assert(base.models.dom().contains(k));
                        assert(base.models[k] == b@);
                    },
                    None => {
                        assert(!eff@.models.dom().contains(k));
                        assert(!base.models.dom().contains(k));
                    },
                }
            }
            let m = merge_profile(&e.0, base_profile, &e.1);
            set_entry(&mut eff.models, e.0.copy_key(), m);
            assert(eff@.models =~= base.models.union_prefer_right(merged_profiles(base.models, entries_view(mp.take(i as int + 1)))));
        }
        i = i + 1;
    }
    assert(mp.take(mp.len() as int) =~= mp);
    assert(eff@.models =~= spec_apply(base, ov).models);
    eff
}

// ---------------------------------------------------------------------------
// Laws of the effective configuration.

/// No overrides, no change: the effective configuration is the baseline.
pub proof fn law_empty_overrides_yield_baseline(baseline: AnemoiConfig, overrides: GovernanceOverrides)
    requires
        overrides.residency_groups@.len() == 0,
        overrides.removed_residency_groups@.len() == 0,
        overrides.domain_rosters@.len() == 0,
        overrides.model_profiles@.len() == 0,
    ensures
        spec_apply(baseline@, overrides@) == baseline@,
{
    let base = baseline@;
    let ov = overrides@;
    assert(ov.residency_groups =~= Map::<Seq<char>, ResidencyGroupConfigView>::empty());
    assert(ov.removed_residency_groups =~= Set::<Seq<char>>::empty());
    assert(ov.domain_rosters =~= Map::<Seq<char>, Seq<Seq<char>>>::empty());
    assert(ov.model_profiles =~= Map::<Seq<char>, ModelProfileOverrideView>::empty());
    let r = spec_apply(base, ov);
    assert(r.domains =~= base.domains);
    assert(r.residency_groups =~= base.residency_groups);
    assert(merged_profiles(base.models, ov.model_profiles) =~= Map::<Seq<char>, ModelProfileConfigView>::empty());
    assert(r.models =~= base.models);
}

/// An operator's profile field always wins: every field the override sets is
/// the effective value; every field it leaves unset keeps the baseline
/// profile's value.
pub proof fn law_operator_override_takes_precedence(base: AnemoiConfigView, ov: GovernanceOverridesView, k: Seq<char>)
    requires
        ov.model_profiles.dom().contains(k),
    ensures
        ({
            let o = ov.model_profiles[k];
            let e = spec_apply(base, ov).models[k];
            &&& spec_apply(base, ov).models.dom().contains(k)
            &&& o.family matches Some(f) ==> e.family == f
            &&& o.parameter_class matches Some(c) ==> e.parameter_class == c
            &&& o.context_window matches Some(x) ==> e.context_window == Some(x)
            &&& o.vram_required_mb matches Some(x) ==> e.vram_required_mb == Some(x)
            &&& o.ram_required_mb matches Some(x) ==> e.ram_required_mb == Some(x)
            &&& o.cold_load_estimate_ms matches Some(x) ==> e.cold_load_estimate_ms == Some(x)
            &&& o.supports_streaming matches Some(x) ==> e.supports_streaming == Some(x)
            &&& o.supported_runtimes matches Some(x) ==> e.supported_runtimes == x
            &&& base.models.dom().contains(k) ==> {
                let b = base.models[k];
                &&& o.family is None ==> e.family == b.family
                &&& o.parameter_class is None ==> e.parameter_class == b.parameter_class
                &&& o.context_window is None ==> e.context_window == b.context_window
                &&& o.vram_required_mb is None ==> e.vram_required_mb == b.vram_required_mb
                &&& o.ram_required_mb is None ==> e.ram_required_mb == b.ram_required_mb
                &&& o.cold_load_estimate_ms is None ==> e.cold_load_estimate_ms == b.cold_load_estimate_ms
                &&& o.supports_streaming is None ==> e.supports_streaming == b.supports_streaming
                &&& o.supported_runtimes is None ==> e.supported_runtimes == b.supported_runtimes
            }
            &&& !base.models.dom().contains(k) ==> {
                &&& o.family is None ==> e.family == spec_family(k)
                &&& o.parameter_class is None ==> e.parameter_class == spec_parameter_class(k)
            }
        }),
{
}

/// A removed residency group is gone from the effective configuration, and
/// a group the operator set (and did not remove) is exactly the operator's.
pub proof fn law_roster_overrides_apply(base: AnemoiConfigView, ov: GovernanceOverridesView, k: Seq<char>)
    ensures
        ov.removed_residency_groups.contains(k) ==> !spec_apply(base, ov).residency_groups.dom().contains(k),
        ov.residency_groups.dom().contains(k) && !ov.removed_residency_groups.contains(k) ==>
            spec_apply(base, ov).residency_groups.dom().contains(k)
            && spec_apply(base, ov).residency_groups[k] == ov.residency_groups[k],
{
}

/// Overrides never add or drop a domain, and a domain keeps its live roster.
pub proof fn law_domains_are_kept(base: AnemoiConfigView, ov: GovernanceOverridesView, k: Seq<char>)
    ensures
        spec_apply(base, ov).domains.dom() == base.domains.dom(),
        base.domains.dom().contains(k) ==> spec_apply(base, ov).domains[k].live_roster == base.domains[k].live_roster,
{
    assert(spec_apply(base, ov).domains.dom() =~= base.domains.dom());
}

// ---------------------------------------------------------------------------
// Advisory warnings.

/// The parameter size, in billions, at or below which a static-roster domain
/// cannot escalate.
pub const ESCALATION_FLOOR_BILLIONS: u32 = 9;

/// A non-fatal governance problem: a stable code, what it is about, and why.
#[derive(Debug, PartialEq, Eq)]
pub struct GovernanceWarning {
    pub code: String,
    pub target: String,
    pub detail: String,
}

/// A warning as (code, target, detail).
pub type WarnView = (Seq<char>, Seq<char>, Seq<char>);

impl View for GovernanceWarning {
    type V = WarnView;

    open spec fn view(&self) -> WarnView {
        (self.code@, self.target@, self.detail@)
    }
}

/// The views of a sequence of warnings.
pub open spec fn warnings_view(s: Seq<GovernanceWarning>) -> Seq<WarnView> {
    s.map_values(|w: GovernanceWarning| w@)
}

/// A `model.missing_profile` warning for each model of group `gid` without a profile.
pub open spec fn missing_profile_warnings(
    models: Seq<(ModelId, ModelProfileConfig)>,
    gid: Seq<char>,
    ms: Seq<Seq<char>>,
) -> Seq<WarnView>
    decreases ms.len(),
{
    if ms.len() == 0 {
        Seq::empty()
    } else {
        let prev = missing_profile_warnings(models, gid, ms.drop_last());
        let m = ms.last();
        if has_key(models, m) {
            prev
        } else {
            prev.push(("model.missing_profile"@, m, "model "@ + m + " in residency group "@ + gid
                + " has no profile; policy will reject it as a candidate"@))
        }
    }
}

/// The warnings of one residency group: empty, and models without a profile.
pub open spec fn group_warnings(config: AnemoiConfig, id: Seq<char>, g: ResidencyGroupConfig) -> Seq<WarnView> {
    (if g.models@.len() == 0 {
        seq![("roster.empty"@, id, "residency group "@ + id + " has no models; it can produce no candidates"@)]
    } else {
        Seq::empty()
    }) + missing_profile_warnings(config.models@, id, model_ids_view(g.models@))
}

/// The warnings of the residency groups, entry by entry.
pub open spec fn groups_warnings(config: AnemoiConfig, entries: Seq<(ResidencyGroupId, ResidencyGroupConfig)>) -> Seq<WarnView>
    decreases entries.len(),
{
    if entries.len() == 0 {
        Seq::empty()
    } else {
        let prev = groups_warnings(config, entries.drop_last());
        let e = entries.last();
        if is_first_entry(entries, e.0@, entries.len() - 1) {
            prev + group_warnings(config, e.0@, e.1)
        } else {
            prev
        }
    }
}

/// The larger of two optional sizes.
pub open spec fn max_opt(a: Option<u32>, b: Option<u32>) -> Option<u32> {
    match (a, b) {
        (Some(x), Some(y)) => Some(if x >= y { x } else { y }),
        (Some(x), None) => Some(x),
        (None, y) => y,
    }
}

/// The largest known size among models `ms`.
pub open spec fn models_largest(models: Seq<(ModelId, ModelProfileConfig)>, ms: Seq<Seq<char>>) -> Option<u32>
    decreases ms.len(),
{
    if ms.len() == 0 {
        None
    } else {
        let prev = models_largest(models, ms.drop_last());
        match lookup(models, ms.last()) {
            Some(p) => max_opt(prev, spec_billions(p.parameter_class@)),
            None => prev,
        }
    }
}

/// The largest known model size reachable through `rosters`.
pub open spec fn rosters_largest(config: AnemoiConfig, rosters: Seq<Seq<char>>) -> Option<u32>
    decreases rosters.len(),
{
    if rosters.len() == 0 {
        None
    } else {
        let prev = rosters_largest(config, rosters.drop_last());
        match lookup(config.residency_groups@, rosters.last()) {
            Some(g) => max_opt(prev, models_largest(config.models@, model_ids_view(g.models@))),
            None => prev,
        }
    }
}

/// A `domain.unknown_roster` warning for each roster of domain `did` that is
/// not defined.
pub open spec fn unknown_roster_warnings(config: AnemoiConfig, did: Seq<char>, rosters: Seq<Seq<char>>) -> Seq<WarnView>
    decreases rosters.len(),
{
    if rosters.len() == 0 {
        Seq::empty()
    } else {
        let prev = unknown_roster_warnings(config, did, rosters.drop_last());
        let r = rosters.last();
        if has_key(config.residency_groups@, r) {
            prev
        } else {
            prev.push(("domain.unknown_roster"@, did, "domain "@ + did + " references residency group "@ + r
                + ", which is not defined"@))
        }
    }
}

/// The warnings of one domain. A live-roster domain has none; a domain
/// without rosters gets `domain.no_roster`; otherwise each unknown roster is
/// flagged, and `domain.no_escalation` when the largest known model size is
/// at most the escalation floor.
pub open spec fn domain_warnings(config: AnemoiConfig, id: Seq<char>, d: DomainConfig) -> Seq<WarnView> {
    if d.live_roster is Some {
        Seq::empty()
    } else if d.rosters@.len() == 0 {
        seq![("domain.no_roster"@, id, "domain "@ + id
            + " has no rosters and no live_roster; it can produce no candidates"@)]
    } else {
        unknown_roster_warnings(config, id, group_ids_view(d.rosters@)) + match rosters_largest(config, group_ids_view(d.rosters@)) {
            Some(b) => if b <= ESCALATION_FLOOR_BILLIONS {
                seq![("domain.no_escalation"@, id, "domain "@ + id + " cannot escalate beyond "@
                    + decimal(ESCALATION_FLOOR_BILLIONS as nat) + "B: its largest roster model is "@ + decimal(b as nat)
                    + "B; add a larger model to enable escalation"@)]
            } else {
                Seq::empty()
            },
            None => Seq::empty(),
        }
    }
}

/// The warnings of the domains, entry by entry.
pub open spec fn domains_warnings(config: AnemoiConfig, entries: Seq<(DomainId, DomainConfig)>) -> Seq<WarnView>
    decreases entries.len(),
{
    if entries.len() == 0 {
        Seq::empty()
    } else {
        let prev = domains_warnings(config, entries.drop_last());
        let e = entries.last();
        if is_first_entry(entries, e.0@, entries.len() - 1) {
            prev + domain_warnings(config, e.0@, e.1)
        } else {
            prev
        }
    }
}

/// The advisory warnings of an effective configuration: those of the
/// residency groups, then those of the domains.
pub open spec fn spec_governance_warnings(config: AnemoiConfig) -> Seq<WarnView> {
    groups_warnings(config, config.residency_groups@) + domains_warnings(config, config.domains@)
}

fn push_warning(out: &mut Vec<GovernanceWarning>, code: &str, target: &str, detail: String)
    ensures
        warnings_view(final(out)@) == warnings_view(old(out)@).push((code@, target@, detail@)),
{
    let w = GovernanceWarning { code: String::from_str(code), target: String::from_str(target), detail };
    let ghost before = out@;
    out.push(w);
    assert(warnings_view(out@) =~= warnings_view(before).push(w@));
}

fn check_group(config: &AnemoiConfig, id: &ResidencyGroupId, g: &ResidencyGroupConfig, out: &mut Vec<GovernanceWarning>)
    ensures
        warnings_view(final(out)@) == warnings_view(old(out)@) + group_warnings(*config, id@, *g),
{
    let ghost start = warnings_view(out@);
    let ghost head: Seq<WarnView> = if g.models@.len() == 0 {
        seq![("roster.empty"@, id@, "residency group "@ + id@ + " has no models; it can produce no candidates"@)]
    } else {
        Seq::empty()
    };
    if g.models.len() == 0 {
        let mut d = String::from_str("residency group ");
        d.append(id.as_str());
        d.append(" has no models; it can produce no candidates");
        push_warning(out, "roster.empty", id.as_str(), d);
        assert(warnings_view(out@) =~= start + head);
    } else {
        assert(start + head =~= start);
    }
    let ghost ms = model_ids_view(g.models@);
    let ghost mid = warnings_view(out@);
    let mut i: usize = 0;
    assert(mid + missing_profile_warnings(config.models@, id@, ms.take(0)) =~= mid);
    while i < g.models.len()
        invariant
            0 <= i <= ms.len(),
            ms == model_ids_view(g.models@),
            warnings_view(out@) == mid + missing_profile_warnings(config.models@, id@, ms.take(i as int)),
        decreases ms.len() - i,
    {
        assert(ms.take(i as int + 1).drop_last() =~= ms.take(i as int));
        assert(ms.take(i as int + 1).last() == g.models@[i as int]@);
        let m = &g.models[i];
        if find_entry(&config.models, m.as_str()).is_none() {
            let mut d = String::from_str("model ");
            d.append(m.as_str());
            d.append(" in residency group ");
            d.append(id.as_str());
            d.append(" has no profile; policy will reject it as a candidate");
            push_warning(out, "model.missing_profile", m.as_str(), d);
        }
        assert(warnings_view(out@) =~= mid + missing_profile_warnings(config.models@, id@, ms.take(i as int + 1)));
        i = i + 1;
    }
    assert(ms.take(ms.len() as int) =~= ms);
    assert(warnings_view(out@) =~= start + group_warnings(*config, id@, *g));
}

fn max_opt_exec(a: Option<u32>, b: Option<u32>) -> (r: Option<u32>)
    ensures
        r == max_opt(a, b),
{
    match (a, b) {
        (Some(x), Some(y)) => Some(if x >= y { x } else { y }),
        (Some(x), None) => Some(x),
        (None, y) => y,
    }
}

fn largest_of_group(config: &AnemoiConfig, g: &ResidencyGroupConfig) -> (r: Option<u32>)
    ensures
        r == models_largest(config.models@, model_ids_view(g.models@)),
{
    let ghost ms = model_ids_view(g.models@);
    let mut best: Option<u32> = None;
    let mut i: usize = 0;
    while i < g.models.len()
        invariant
            0 <= i <= ms.len(),
            ms == model_ids_view(g.models@),
            best == models_largest(config.models@, ms.take(i as int)),
        decreases ms.len() - i,
    {
        assert(ms.take(i as int + 1).drop_last() =~= ms.take(i as int));
        assert(ms.take(i as int + 1).last() == g.models@[i as int]@);
        match find_entry(&config.models, g.models[i].as_str()) {
            Some(k) => {
                let b = parameter_billions(config.models[k].1.parameter_class.as_str());
                best = max_opt_exec(best, b);
            },
            None => {},
        }
        i = i + 1;
    }
    assert(ms.take(ms.len() as int) =~= ms);
    best
}

fn check_domain(config: &AnemoiConfig, id: &DomainId, d: &DomainConfig, out: &mut Vec<GovernanceWarning>)
    ensures
        warnings_view(final(out)@) == warnings_view(old(out)@) + domain_warnings(*config, id@, *d),
{
    let ghost start = warnings_view(out@);
    if d.live_roster.is_some() {
        assert(start + Seq::<WarnView>::empty() =~= start);
        return;
    }
    if d.rosters.len() == 0 {
        let mut t = String::from_str("domain ");
        t.append(id.as_str());
        t.append(" has no rosters and no live_roster; it can produce no candidates");
        push_warning(out, "domain.no_roster", id.as_str(), t);
        return;
    }
    let ghost rs = group_ids_view(d.rosters@);
    let mut largest: Option<u32> = None;
    let mut i: usize = 0;
    assert(start + unknown_roster_warnings(*config, id@, rs.take(0)) =~= start);
    while i < d.rosters.len()
        invariant
            0 <= i <= rs.len(),
            rs == group_ids_view(d.rosters@),
            warnings_view(out@) == start + unknown_roster_warnings(*config, id@, rs.take(i as int)),
            largest == rosters_largest(*config, rs.take(i as int)),
        decreases rs.len() - i,
    {
        assert(rs.take(i as int + 1).drop_last() =~= rs.take(i as int));
        assert(rs.take(i as int + 1).last() == d.rosters@[i as int]@);
        let r = &d.rosters[i];
        match find_entry(&config.residency_groups, r.as_str()) {
            None => {
                let mut t = String::from_str("domain ");
                t.append(id.as_str());
                t.append(" references residency group ");
                t.append(r.as_str());
                t.append(", which is not defined");
                push_warning(out, "domain.unknown_roster", id.as_str(), t);
            },
            Some(k) => {
                let g = largest_of_group(config, &config.residency_groups[k].1);
                largest = max_opt_exec(largest, g);
            },
        }
        assert(warnings_view(out@) =~= start + unknown_roster_warnings(*config, id@, rs.take(i as int + 1)));
        i = i + 1;
    }
    assert(rs.take(rs.len() as int) =~= rs);
    let ghost mid = warnings_view(out@);
    match largest {
        Some(b) => {
            if b <= ESCALATION_FLOOR_BILLIONS {
                let mut t = String::from_str("domain ");
                t.append(id.as_str());
                t.append(" cannot escalate beyond ");
                push_u64(&mut t, ESCALATION_FLOOR_BILLIONS as u64);
                t.append("B: its largest roster model is ");
                push_u64(&mut t, b as u64);
                t.append("B; add a larger model to enable escalation");
                push_warning(out, "domain.no_escalation", id.as_str(), t);
                assert(warnings_view(out@) =~= start + domain_warnings(*config, id@, *d));
            } else {
                assert(warnings_view(out@) =~= start + domain_warnings(*config, id@, *d));
            }
        },
        None => {
            assert(warnings_view(out@) =~= start + domain_warnings(*config, id@, *d));
        },
    }
}

/// The advisory governance warnings of an effective configuration (see
/// [`spec_governance_warnings`]): empty groups, group models without a
/// profile, domains without rosters, rosters that are not defined, and
/// static-roster domains that cannot escalate past the floor. Nothing is
/// changed.
pub fn validate_governance(effective: &AnemoiConfig) -> (r: Vec<GovernanceWarning>)
    ensures
        warnings_view(r@) == spec_governance_warnings(*effective),
{
    let mut out: Vec<GovernanceWarning> = Vec::new();
    let ghost gs = effective.residency_groups@;
    let mut i: usize = 0;
    assert(warnings_view(out@) =~= groups_warnings(*effective, gs.take(0)));
    while i < effective.residency_groups.len()
        invariant
            0 <= i <= gs.len(),
            gs == effective.residency_groups@,
            warnings_view(out@) == groups_warnings(*effective, gs.take(i as int)),
        decreases gs.len() - i,
    {
        let ghost t = gs.take(i as int + 1);
        assert(t.drop_last() =~= gs.take(i as int));
        assert(t.last() == gs[i as int]);
        if first_of_key(&effective.residency_groups, i) {
            let e = &effective.residency_groups[i];
            check_group(effective, &e.0, &e.1, &mut out);
        }
        i = i + 1;
    }
    assert(gs.take(gs.len() as int) =~= gs);
    let ghost mid = warnings_view(out@);
    let ghost ds = effective.domains@;
    let mut i: usize = 0;
    assert(mid + domains_warnings(*effective, ds.take(0)) =~= mid);
    while i < effective.domains.len()
        invariant
            0 <= i <= ds.len(),
            ds == effective.domains@,
            warnings_view(out@) == mid + domains_warnings(*effective, ds.take(i as int)),
        decreases ds.len() - i,
    {
        let ghost t = ds.take(i as int + 1);
        assert(t.drop_last() =~= ds.take(i as int));
        assert(t.last() == ds[i as int]);
        if first_of_key(&effective.domains, i) {
            let e = &effective.domains[i];
            check_domain(effective, &e.0, &e.1, &mut out);
            assert(warnings_view(out@) =~= mid + domains_warnings(*effective, t));
        }
        i = i + 1;
    }
    assert(ds.take(ds.len() as int) =~= ds);
    out
}

} // verus!
