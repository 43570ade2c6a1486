use vstd::prelude::*;
use crate::ids::{ModelId, RuntimeId, ResidencyGroupId, RequestId, DomainId};

verus! {

/// Residency state of a model on a runtime.
#[derive(Debug, PartialEq, Eq, Structural, Clone, Copy, Hash)]
pub enum ResidencyState {
    Cold,
    Loading,
    WarmCpu,
    Partial,
    HotGpu,
    Serving,
    Draining,
    Evicting,
    Failed,
}

impl ResidencyState {
    /// Whether the model occupies the runtime in this state (anything but
    /// `Cold` or `Failed`).
    pub fn is_resident(&self) -> (r: bool)
        ensures
            r == !(*self == ResidencyState::Cold || *self == ResidencyState::Failed),
    {
        !matches!(self, ResidencyState::Cold | ResidencyState::Failed)
    }

    /// The score bonus for reusing a model in this state.
    pub open spec fn spec_reuse_bonus(self) -> int {
        match self {
            ResidencyState::HotGpu | ResidencyState::Serving => 60,
            ResidencyState::WarmCpu => 35,
            ResidencyState::Partial | ResidencyState::Loading => 15,
            ResidencyState::Draining | ResidencyState::Evicting => -10,
            ResidencyState::Cold | ResidencyState::Failed => 0,
        }
    }

    /// The score bonus for reusing a model in this state: hot 60, warm 35,
    /// partial or loading 15, draining or evicting -10, cold or failed 0.
    pub fn reuse_bonus(&self) -> (r: i32)
        ensures
            r == self.spec_reuse_bonus(),
    {
        match self {
            ResidencyState::HotGpu | ResidencyState::Serving => 60,
            ResidencyState::WarmCpu => 35,
            ResidencyState::Partial | ResidencyState::Loading => 15,
            ResidencyState::Draining | ResidencyState::Evicting => -10,
            ResidencyState::Cold | ResidencyState::Failed => 0,
        }
    }

    /// The variant name, as `{:?}` renders it.
    pub open spec fn spec_name(self) -> Seq<char> {
        match self {
            ResidencyState::Cold => "Cold"@,
            ResidencyState::Loading => "Loading"@,
            ResidencyState::WarmCpu => "WarmCpu"@,
            ResidencyState::Partial => "Partial"@,
            ResidencyState::HotGpu => "HotGpu"@,
            ResidencyState::Serving => "Serving"@,
            ResidencyState::Draining => "Draining"@,
            ResidencyState::Evicting => "Evicting"@,
            ResidencyState::Failed => "Failed"@,
        }
    }

    /// The variant name, as `{:?}` renders it.
    pub fn name(&self) -> (r: &'static str)
        ensures
            r@ == self.spec_name(),
    {
        match self {
            ResidencyState::Cold => "Cold",
            ResidencyState::Loading => "Loading",
            ResidencyState::WarmCpu => "WarmCpu",
            ResidencyState::Partial => "Partial",
            ResidencyState::HotGpu => "HotGpu",
            ResidencyState::Serving => "Serving",
            ResidencyState::Draining => "Draining",
            ResidencyState::Evicting => "Evicting",
            ResidencyState::Failed => "Failed",
        }
    }
}

/// Profile of a model: family, size class and resource needs.
#[derive(Debug, PartialEq, Eq)]
pub struct ModelProfile {
    pub id: ModelId,
    pub family: String,
    pub parameter_class: String,
    pub context_window: Option<u32>,
    pub vram_required_mb: Option<u64>,
    pub ram_required_mb: Option<u64>,
    pub cold_load_estimate_ms: Option<u64>,
    pub supported_runtimes: Vec<RuntimeId>,
    /// Whether the model supports streaming responses; `None` is unknown.
    pub supports_streaming: Option<bool>,
}

/// The mathematical content of a [`ModelProfile`].
pub struct ModelProfileView {
    pub id: Seq<char>,
    pub family: Seq<char>,
    pub parameter_class: Seq<char>,
    pub context_window: Option<u32>,
    pub vram_required_mb: Option<u64>,
    pub ram_required_mb: Option<u64>,
    pub cold_load_estimate_ms: Option<u64>,
    pub supported_runtimes: Seq<Seq<char>>,
    pub supports_streaming: Option<bool>,
}

/// The views of a sequence of ids.
pub open spec fn runtime_ids_view(s: Seq<RuntimeId>) -> Seq<Seq<char>> {
    s.map_values(|r: RuntimeId| r@)
}

/// The views of a sequence of model ids.
pub open spec fn model_ids_view(s: Seq<ModelId>) -> Seq<Seq<char>> {
    s.map_values(|m: ModelId| m@)
}

/// The views of a sequence of group ids.
pub open spec fn group_ids_view(s: Seq<ResidencyGroupId>) -> Seq<Seq<char>> {
    s.map_values(|g: ResidencyGroupId| g@)
}

/// The views of a sequence of strings.
pub open spec fn strings_view(s: Seq<String>) -> Seq<Seq<char>> {
    s.map_values(|x: String| x@)
}

impl View for ModelProfile {
    type V = ModelProfileView;

    open spec fn view(&self) -> ModelProfileView {
        ModelProfileView {
            id: self.id@,
            family: self.family@,
            parameter_class: self.parameter_class@,
            context_window: self.context_window,
            vram_required_mb: self.vram_required_mb,
            ram_required_mb: self.ram_required_mb,
            cold_load_estimate_ms: self.cold_load_estimate_ms,
            supported_runtimes: runtime_ids_view(self.supported_runtimes@),
            supports_streaming: self.supports_streaming,
        }
    }
}

/// Clones a vector of runtime ids.
pub fn clone_runtime_ids(v: &Vec<RuntimeId>) -> (r: Vec<RuntimeId>)
    ensures
        r@ == v@,
{
    let r = v.clone();
    proof {
        assert forall|i: int| 0 <= i < r@.len() implies r@[i] == v@[i] by {
            assert(cloned(v@[i], r@[i]));
        }
        assert(r@ =~= v@);
    }
    r
}

/// Clones a vector of model ids.
pub fn clone_model_ids(v: &Vec<ModelId>) -> (r: Vec<ModelId>)
    ensures
        r@ == v@,
{
    let r = v.clone();
    proof {
        assert forall|i: int| 0 <= i < r@.len() implies r@[i] == v@[i] by {
            assert(cloned(v@[i], r@[i]));
        }
        assert(r@ =~= v@);
    }
    r
}

/// Clones a vector of group ids.
pub fn clone_group_ids(v: &Vec<ResidencyGroupId>) -> (r: Vec<ResidencyGroupId>)
    ensures
        r@ == v@,
{
    let r = v.clone();
    proof {
        assert forall|i: int| 0 <= i < r@.len() implies r@[i] == v@[i] by {
            assert(cloned(v@[i], r@[i]));
        }
        assert(r@ =~= v@);
    }
    r
}

/// Clones a vector of strings.
pub fn clone_strings(v: &Vec<String>) -> (r: Vec<String>)
    ensures
        r@ == v@,
{
    let r = v.clone();
    proof {
        assert forall|i: int| 0 <= i < r@.len() implies r@[i] == v@[i] by {
            assert(cloned(v@[i], r@[i]));
        }
        assert(r@ =~= v@);
    }
    r
}

impl Clone for ModelProfile {
    fn clone(&self) -> (r: Self)
        ensures
            r@ == self@,
    {
        ModelProfile {
            id: self.id.clone(),
            family: self.family.clone(),
            parameter_class: self.parameter_class.clone(),
            context_window: self.context_window,
            vram_required_mb: self.vram_required_mb,
            ram_required_mb: self.ram_required_mb,
            cold_load_estimate_ms: self.cold_load_estimate_ms,
            supported_runtimes: clone_runtime_ids(&self.supported_runtimes),
            supports_streaming: self.supports_streaming,
        }
    }
}

/// A residency group (roster): models kept together under shared flags.
#[derive(Debug, PartialEq, Eq)]
pub struct ResidencyGroup {
    pub id: ResidencyGroupId,
    pub purpose: Vec<String>,
    pub models: Vec<ModelId>,
    pub keep_hot: bool,
    pub allow_background_load: bool,
    /// Pinned groups are protected from eviction unless forced.
    pub pinned: bool,
}

/// Co-residency feasibility of a runtime: each loadout is a set of model ids
/// that may be GPU-resident together.
#[derive(Debug, PartialEq, Eq)]
pub struct ColocationConstraints {
    pub loadouts: Vec<Vec<ModelId>>,
}

/// The loadouts of a constraint set, as sequences of model-id views.
pub open spec fn loadouts_view(c: ColocationConstraints) -> Seq<Seq<Seq<char>>> {
    c.loadouts@.map_values(|l: Vec<ModelId>| model_ids_view(l@))
}

/// Whether some loadout contains both `a` and `b`.
pub open spec fn spec_can_colocate(loadouts: Seq<Seq<Seq<char>>>, a: Seq<char>, b: Seq<char>) -> bool {
    exists|i: int| 0 <= i < loadouts.len() && #[trigger] loadouts[i].contains(a) && loadouts[i].contains(b)
}

/// Whether the model-id sequence `ids` holds one whose view is `m`.
pub fn contains_model(ids: &Vec<ModelId>, m: &ModelId) -> (r: bool)
    ensures
        r == model_ids_view(ids@).contains(m@),
{
    let mut i: usize = 0;
    while i < ids.len()
        invariant
            0 <= i <= ids@.len(),
            forall|j: int| 0 <= j < i ==> ids@[j]@ != m@,
        decreases ids@.len() - i,
    {
        if ids[i].same(m) {
            assert(model_ids_view(ids@)[i as int] == m@);
            return true;
        }
        i = i + 1;
    }
    proof {
        if model_ids_view(ids@).contains(m@) {
            let k = choose|k: int| 0 <= k < model_ids_view(ids@).len() && model_ids_view(ids@)[k] == m@;
            assert(ids@[k]@ == m@);
        }
    }
    false
}

impl ColocationConstraints {
    /// Whether `a` and `b` may be GPU-resident together: some declared
    /// loadout contains both. An empty set of loadouts admits no pair.
    pub fn can_colocate(&self, a: &ModelId, b: &ModelId) -> (r: bool)
        ensures
            r == spec_can_colocate(loadouts_view(*self), a@, b@),
    {
        let mut i: usize = 0;
        while i < self.loadouts.len()
            invariant
                0 <= i <= self.loadouts@.len(),
                forall|j: int| 0 <= j < i ==> !(#[trigger] loadouts_view(*self)[j].contains(a@) && loadouts_view(*self)[j].contains(b@)),
            decreases self.loadouts@.len() - i,
        {
            if contains_model(&self.loadouts[i], a) && contains_model(&self.loadouts[i], b) {
                assert(loadouts_view(*self)[i as int] == model_ids_view(self.loadouts@[i as int]@));
                return true;
            }
            assert(loadouts_view(*self)[i as int] == model_ids_view(self.loadouts@[i as int]@));
            i = i + 1;
        }
        false
    }
}

impl Clone for ColocationConstraints {
    fn clone(&self) -> (r: Self)
        ensures
            loadouts_view(r) == loadouts_view(*self),
    {
        let mut out: Vec<Vec<ModelId>> = Vec::new();
        let mut i: usize = 0;
        while i < self.loadouts.len()
            invariant
                0 <= i <= self.loadouts@.len(),
                out@.len() == i,
                forall|j: int| 0 <= j < i ==> (#[trigger] out@[j])@ == self.loadouts@[j]@,
            decreases self.loadouts@.len() - i,
        {
            out.push(clone_model_ids(&self.loadouts[i]));
            i = i + 1;
        }
        let r = ColocationConstraints { loadouts: out };
        assert(loadouts_view(r) =~= loadouts_view(*self));
        r
    }
}

/// Memory figures of a runtime in megabytes; `None` is unknown.
#[derive(Debug, PartialEq, Eq, Structural, Clone, Copy, Default)]
pub struct RuntimeMemorySnapshot {
    pub vram_total_mb: Option<u64>,
    pub vram_used_mb: Option<u64>,
    pub ram_total_mb: Option<u64>,
    pub ram_used_mb: Option<u64>,
}

impl RuntimeMemorySnapshot {
    /// VRAM pressure in whole percent: `used * 100 / total`, or `None` when
    /// either figure is unknown or the total is zero.
    pub open spec fn spec_pressure_percent(self) -> Option<u64> {
        match (self.vram_used_mb, self.vram_total_mb) {
            (Some(used), Some(total)) => if total > 0 {
                Some(((used * 100) / total as int) as u64)
            } else {
                None
            },
            _ => None,
        }
    }

    /// VRAM pressure in whole percent.
    pub fn pressure_percent(&self) -> (r: Option<u64>)
        requires
            self.vram_used_mb is Some && self.vram_total_mb is Some ==> self.vram_used_mb->0 * 100 <= u64::MAX,
        ensures
            r == self.spec_pressure_percent(),
    {
        let used = match self.vram_used_mb {
            Some(u) => u,
            None => return None,
        };
        let total = match self.vram_total_mb {
            Some(t) => t,
            None => return None,
        };
        if total > 0 {
            Some((used * 100) / total)
        } else {
            None
        }
    }

    /// The snapshot with every figure unknown.
    pub fn unknown() -> (r: RuntimeMemorySnapshot)
        ensures
            r.vram_total_mb is None && r.vram_used_mb is None && r.ram_total_mb is None && r.ram_used_mb is None,
    {
        RuntimeMemorySnapshot { vram_total_mb: None, vram_used_mb: None, ram_total_mb: None, ram_used_mb: None }
    }
}

/// A model resident on a runtime.
#[derive(Debug, PartialEq, Eq)]
pub struct ModelResident {
    pub model_id: ModelId,
    pub state: ResidencyState,
    pub vram_mb: Option<u64>,
    pub ram_mb: Option<u64>,
    pub kv_cache_mb: Option<u64>,
    /// When the model became resident, in milliseconds since the Unix epoch.
    pub loaded_since: Option<i64>,
}

impl Clone for ModelResident {
    fn clone(&self) -> (r: Self)
        ensures
            r == *self,
    {
        ModelResident {
            model_id: self.model_id.clone(),
            state: self.state,
            vram_mb: self.vram_mb,
            ram_mb: self.ram_mb,
            kv_cache_mb: self.kv_cache_mb,
            loaded_since: self.loaded_since,
        }
    }
}

/// A request currently executing on a runtime.
#[derive(Debug, PartialEq, Eq)]
pub struct ActiveExecution {
    pub request_id: RequestId,
    pub model_id: ModelId,
    /// Start time in milliseconds since the Unix epoch.
    pub started_at: i64,
}

/// An observed snapshot of one runtime.
#[derive(Debug, PartialEq, Eq)]
pub struct RuntimeSnapshot {
    pub runtime_id: RuntimeId,
    pub available: bool,
    pub residents: Vec<ModelResident>,
    /// Models the runtime reports as configured; configuration is not
    /// evidence of residency.
    pub configured_models: Vec<ModelId>,
    pub memory: RuntimeMemorySnapshot,
    pub active_requests: Vec<ActiveExecution>,
    /// Co-residency feasibility; `None` means unknown.
    pub colocation: Option<ColocationConstraints>,
}

/// How a request is executed.
#[derive(Debug, PartialEq, Eq, Structural, Clone, Copy)]
pub enum ExecutionMode {
    Interactive,
    Batch,
    Background,
}

/// A minimum model size a request demands.
#[derive(Debug, PartialEq, Eq)]
pub struct QualityFloor {
    pub minimum_parameter_class: Option<String>,
}

/// An agent-declared intent to escalate to a larger model.
#[derive(Debug, PartialEq, Eq)]
pub struct EscalationIntent {
    pub task_type: Option<String>,
    pub context: Option<String>,
}

/// An inference request submitted for scheduling.
#[derive(Debug, PartialEq, Eq)]
pub struct InferenceRequest {
    pub id: RequestId,
    pub domain: DomainId,
    pub mode: ExecutionMode,
    pub prompt_tokens_estimate: Option<u32>,
    pub max_output_tokens: Option<u32>,
    pub latency_budget_ms: Option<u64>,
    pub quality_floor: Option<QualityFloor>,
    pub escalation_intent: Option<EscalationIntent>,
}

/// A request to execute a prompt on a selected model.
#[derive(Debug, PartialEq, Eq)]
pub struct ExecutionRequest {
    pub request_id: RequestId,
    pub model_id: ModelId,
    pub prompt: Option<String>,
}

} // verus!
