//! What each runtime adapter reports once its probes have answered: the
//! snapshot built from a health check, a model listing and the residency
//! evidence, and the in-memory state transitions of the mock runtime.

use vstd::prelude::*;
use crate::ids::{ModelId, RuntimeId};
use crate::text::push_str;
use crate::types::{
    ActiveExecution, ColocationConstraints, ExecutionRequest, ModelResident, ResidencyState,
    RuntimeMemorySnapshot, RuntimeSnapshot, loadouts_view, model_ids_view,
};
use crate::runtime::util::{bytes_to_mb, normalize_model_id, spec_normalized_id};
use crate::runtime::events::{ModelStates, residents_from_states, residents_view, residents_in_order, sort_by_id};
use crate::runtime::matrix::{
    LlamaSwapMatrixConfig, all_loadouts, all_sorted, loadouts_per_set, matrix_can_colocate, names_view, sets_of,
};

verus! {

/// Every memory figure unknown.
pub open spec fn memory_unknown(m: RuntimeMemorySnapshot) -> bool {
    m.vram_total_mb is None && m.vram_used_mb is None && m.ram_total_mb is None && m.ram_used_mb is None
}

/// A snapshot of `runtime_id` with nothing observed but its availability.
pub fn bare_snapshot(runtime_id: RuntimeId, available: bool) -> (r: RuntimeSnapshot)
    ensures
        r.runtime_id == runtime_id,
        r.available == available,
        r.residents@.len() == 0,
        r.configured_models@.len() == 0,
        memory_unknown(r.memory),
        r.active_requests@.len() == 0,
        r.colocation is None,
{
    RuntimeSnapshot {
        runtime_id,
        available,
        residents: Vec::new(),
        configured_models: Vec::new(),
        memory: RuntimeMemorySnapshot::unknown(),
        active_requests: Vec::new(),
        colocation: None,
    }
}

/// The configured model ids a listing implies: each reported id normalized,
/// those that normalize to nothing skipped, order kept.
pub open spec fn configured_ids(raw: Seq<Seq<char>>) -> Seq<Seq<char>>
    decreases raw.len(),
{
    if raw.len() == 0 {
        Seq::empty()
    } else {
        let prev = configured_ids(raw.drop_last());
        let id = spec_normalized_id(raw.last());
        if id.len() > 0 {
            prev.push(id)
        } else {
            prev
        }
    }
}

/// Normalizes the model ids a runtime lists, skipping malformed ones: a
/// runtime reporting a blank id must not yield an empty model id.
pub fn configured_models_from(raw: &Vec<String>) -> (r: Vec<ModelId>)
    ensures
        model_ids_view(r@) == configured_ids(names_view(raw@)),
{
    let ghost n = names_view(raw@);
    let mut out: Vec<ModelId> = Vec::new();
    let mut i: usize = 0;
    while i < raw.len()
        invariant
            0 <= i <= raw@.len(),
            n == names_view(raw@),
            model_ids_view(out@) == configured_ids(n.take(i as int)),
        decreases raw@.len() - i,
    {
        proof {
            assert(n.take(i as int + 1).drop_last() =~= n.take(i as int));
            assert(n.take(i as int + 1).last() == raw@[i as int]@);
        }
        match normalize_model_id(raw[i].as_str()) {
            Ok(id) => {
                proof {
                    assert(model_ids_view(out@.push(id)) =~= model_ids_view(out@).push(id@));
                }
                out.push(id);
            },
            Err(_) => {},
        }
        i = i + 1;
    }
    assert(n.take(raw@.len() as int) =~= n);
    out
}

/// The configured ids of an optional listing: none when the listing failed.
pub open spec fn listed_ids(listed: Option<Vec<String>>) -> Seq<Seq<char>> {
    match listed {
        Some(l) => configured_ids(names_view(l@)),
        None => Seq::empty(),
    }
}

/// The configured models of an optional listing.
fn listed_models(listed: &Option<Vec<String>>) -> (r: Vec<ModelId>)
    ensures
        model_ids_view(r@) == listed_ids(*listed),
{
    match listed {
        Some(l) => configured_models_from(l),
        None => {
            let r: Vec<ModelId> = Vec::new();
            assert(model_ids_view(r@) =~= Seq::<Seq<char>>::empty());
            r
        },
    }
}

/// Whether llama-swap's matrix, when one was supplied, lets `a` and `b` be
/// resident together. Without a matrix no two models are known to colocate,
/// so the safe answer is that loading one evicts the other.
pub fn llama_swap_can_colocate(matrix: &Option<LlamaSwapMatrixConfig>, a: &ModelId, b: &ModelId) -> (r: bool)
    ensures
        r == (matrix is Some && matrix_can_colocate(matrix->0, a@, b@)),
{
    match matrix {
        Some(m) => m.can_colocate(a, b),
        None => false,
    }
}

/// The colocation constraints a llama-swap runtime surfaces: the lowered
/// matrix, or `None` (unknown, no constraint) without one.
pub fn llama_swap_colocation(matrix: &Option<LlamaSwapMatrixConfig>) -> (r: Option<ColocationConstraints>)
    ensures
        r is None <==> matrix is None,
        r is Some ==> all_sorted(loadouts_view(r->0))
            && sets_of(loadouts_view(r->0)) == all_loadouts(loadouts_per_set(matrix->0)),
{
    match matrix {
        Some(m) => Some(m.colocation_constraints()),
        None => None,
    }
}

/// What a llama-swap runtime reports. A failed health check reports it
/// unavailable and nothing more. A healthy runtime is available whether or
/// not its model listing answered (a failed listing yields no configured
/// models rather than hiding a healthy runtime); its residents come from the
/// event-stream state table only, since a listing proves configuration, not
/// residency.
pub fn llama_swap_snapshot(
    runtime_id: RuntimeId,
    healthy: bool,
    listed: &Option<Vec<String>>,
    states: &ModelStates,
    matrix: &Option<LlamaSwapMatrixConfig>,
) -> (r: RuntimeSnapshot)
    ensures
        r.runtime_id == runtime_id,
        r.available == healthy,
        memory_unknown(r.memory),
        r.active_requests@.len() == 0,
        !healthy ==> r.residents@.len() == 0 && r.configured_models@.len() == 0 && r.colocation is None,
        healthy ==> residents_view(r.residents@) == sort_by_id(residents_in_order(states.spec_entries())),
        healthy ==> model_ids_view(r.configured_models@) == listed_ids(*listed),
        healthy ==> (r.colocation is None <==> matrix is None),
        healthy && matrix is Some ==> all_sorted(loadouts_view(r.colocation->0))
            && sets_of(loadouts_view(r.colocation->0)) == all_loadouts(loadouts_per_set(matrix->0)),
{
    if !healthy {
        return bare_snapshot(runtime_id, false);
    }
    RuntimeSnapshot {
        runtime_id,
        available: true,
        residents: residents_from_states(states),
        configured_models: listed_models(listed),
        memory: RuntimeMemorySnapshot::unknown(),
        active_requests: Vec::new(),
        colocation: llama_swap_colocation(matrix),
    }
}

/// What a llama.cpp server reports: like llama-swap, but with no residency
/// evidence at all, so a healthy server has configured models and no
/// residents.
pub fn llama_cpp_snapshot(runtime_id: RuntimeId, healthy: bool, listed: &Option<Vec<String>>) -> (r: RuntimeSnapshot)
    ensures
        r.runtime_id == runtime_id,
        r.available == healthy,
        r.residents@.len() == 0,
        memory_unknown(r.memory),
        r.active_requests@.len() == 0,
        r.colocation is None,
        !healthy ==> r.configured_models@.len() == 0,
        healthy ==> model_ids_view(r.configured_models@) == listed_ids(*listed),
{
    if !healthy {
        return bare_snapshot(runtime_id, false);
    }
    let mut s = bare_snapshot(runtime_id, true);
    s.configured_models = listed_models(listed);
    s
}

/// One model that Ollama's `/api/ps` lists as running, with its sizes in
/// bytes where reported.
#[derive(Debug, Clone, PartialEq, Eq)]
pub struct OllamaRunningModel {
    pub name: String,
    pub size_vram: Option<u64>,
    pub size: Option<u64>,
}

/// Whole megabytes of an optional byte count.
pub open spec fn opt_mb(bytes: Option<u64>) -> Option<u64> {
    match bytes {
        Some(b) => Some((b / 1024 / 1024) as u64),
        None => None,
    }
}

/// The resident that a running Ollama model is.
pub open spec fn ollama_resident(m: OllamaRunningModel, r: ModelResident) -> bool {
    &&& r.model_id@ == m.name@
    &&& r.state == ResidencyState::HotGpu
    &&& r.vram_mb == opt_mb(m.size_vram)
    &&& r.ram_mb == opt_mb(m.size)
    &&& r.kv_cache_mb is None
    &&& r.loaded_since is None
}

/// Whole megabytes of an optional byte count.
fn to_mb(bytes: Option<u64>) -> (r: Option<u64>)
    ensures
        r == opt_mb(bytes),
{
    match bytes {
        Some(b) => Some(bytes_to_mb(b)),
        None => None,
    }
}

/// What an Ollama runtime reports. A failed `/api/ps` reports it unavailable;
/// otherwise every running model is hot on the GPU, in the order listed, with
/// its sizes in whole megabytes.
pub fn ollama_snapshot(runtime_id: RuntimeId, ok: bool, running: &Vec<OllamaRunningModel>) -> (r: RuntimeSnapshot)
    ensures
        r.runtime_id == runtime_id,
        r.available == ok,
        r.configured_models@.len() == 0,
        memory_unknown(r.memory),
        r.active_requests@.len() == 0,
        r.colocation is None,
        !ok ==> r.residents@.len() == 0,
        ok ==> r.residents@.len() == running@.len(),
        ok ==> forall|i: int| 0 <= i < running@.len() ==> ollama_resident(running@[i], #[trigger] r.residents@[i]),
{
    if !ok {
        return bare_snapshot(runtime_id, false);
    }
    let mut residents: Vec<ModelResident> = Vec::new();
    let mut i: usize = 0;
    while i < running.len()
        invariant
            0 <= i <= running@.len(),
            residents@.len() == i,
            forall|j: int| 0 <= j < i ==> ollama_resident(running@[j], #[trigger] residents@[j]),
        decreases running@.len() - i,
    {
        let m = &running[i];
        residents.push(ModelResident {
            model_id: ModelId(m.name.clone()),
            state: ResidencyState::HotGpu,
            vram_mb: to_mb(m.size_vram),
            ram_mb: to_mb(m.size),
            kv_cache_mb: None,
            loaded_since: None,
        });
        i = i + 1;
    }
    let mut s = bare_snapshot(runtime_id, true);
    s.residents = residents;
    s
}

} // verus!

verus! {

/// The residents with model `m` dropped.
pub open spec fn without_model(s: Seq<ModelResident>, m: Seq<char>) -> Seq<ModelResident>
    decreases s.len(),
{
    if s.len() == 0 {
        Seq::empty()
    } else if s.last().model_id@ == m {
        without_model(s.drop_last(), m)
    } else {
        without_model(s.drop_last(), m).push(s.last())
    }
}

/// The index of the first resident of model `m`, if any.
pub open spec fn first_resident(s: Seq<ModelResident>, m: Seq<char>) -> Option<int> {
    if exists|i: int| 0 <= i < s.len() && (#[trigger] s[i]).model_id@ == m {
        Some(choose|i: int| 0 <= i < s.len() && (#[trigger] s[i]).model_id@ == m
            && forall|j: int| 0 <= j < i ==> (#[trigger] s[j]).model_id@ != m)
    } else {
        None
    }
}

/// A freshly placed resident: its model and state, nothing measured.
pub open spec fn fresh_resident(r: ModelResident, m: Seq<char>, state: ResidencyState) -> bool {
    &&& r.model_id@ == m
    &&& r.state == state
    &&& r.vram_mb is None
    &&& r.ram_mb is None
    &&& r.kv_cache_mb is None
    &&& r.loaded_since is None
}

/// Whether a snapshot's fields other than its residents stay as they were.
pub open spec fn same_but_residents(a: RuntimeSnapshot, b: RuntimeSnapshot) -> bool {
    &&& a.runtime_id == b.runtime_id
    &&& a.available == b.available
    &&& a.configured_models == b.configured_models
    &&& a.memory == b.memory
    &&& a.active_requests == b.active_requests
    &&& a.colocation == b.colocation
}

/// Finds the first resident of model `m`.
fn find_resident(s: &Vec<ModelResident>, m: &ModelId) -> (r: Option<usize>)
    ensures
        match r {
            Some(i) => i < s@.len() && s@[i as int].model_id@ == m@
                && forall|j: int| 0 <= j < i ==> (#[trigger] s@[j]).model_id@ != m@,
            None => forall|j: int| 0 <= j < s@.len() ==> (#[trigger] s@[j]).model_id@ != m@,
        },
{
    let mut i: usize = 0;
    while i < s.len()
        invariant
            0 <= i <= s@.len(),
            forall|j: int| 0 <= j < i ==> (#[trigger] s@[j]).model_id@ != m@,
        decreases s@.len() - i,
    {
        if s[i].model_id.same(m) {
            return Some(i);
        }
        i = i + 1;
    }
    None
}

/// Sets the state of model `model_id` on a mock runtime: its first resident
/// takes the new state and keeps its other fields; an absent model is added
/// with that state and nothing measured.
pub fn set_resident_state(snapshot: &mut RuntimeSnapshot, model_id: ModelId, state: ResidencyState)
    ensures
        same_but_residents(*final(snapshot), *old(snapshot)),
        match first_resident(old(snapshot).residents@, model_id@) {
            Some(k) => final(snapshot).residents@ == old(snapshot).residents@.update(k, ModelResident {
                state: state,
                ..old(snapshot).residents@[k]
            }),
            None => final(snapshot).residents@.len() == old(snapshot).residents@.len() + 1
                && final(snapshot).residents@.drop_last() == old(snapshot).residents@
                && fresh_resident(final(snapshot).residents@.last(), model_id@, state),
        },
{
    match find_resident(&snapshot.residents, &model_id) {
        Some(i) => {
            let mut r = snapshot.residents[i].clone();
            r.state = state;
            proof {
                assert(first_resident(old(snapshot).residents@, model_id@) == Some(i as int)) by {
                    let s = old(snapshot).residents@;
                    assert(s[i as int].model_id@ == model_id@);
                    let k = choose|k: int| 0 <= k < s.len() && (#[trigger] s[k]).model_id@ == model_id@
                        && forall|j: int| 0 <= j < k ==> (#[trigger] s[j]).model_id@ != model_id@;
                    if k < i {
                    } else if k > i {
                        assert(s[i as int].model_id@ != model_id@);
                    }
                }
            }
            snapshot.residents.set(i, r);
        },
        None => {
            proof {
                assert(first_resident(old(snapshot).residents@, model_id@) is None);
            }
            snapshot.residents.push(ModelResident {
                model_id,
                state,
                vram_mb: None,
                ram_mb: None,
                kv_cache_mb: None,
                loaded_since: None,
            });
            assert(snapshot.residents@.drop_last() =~= old(snapshot).residents@);
        },
    }
}

/// Starts loading `model` on a mock runtime: a model not yet resident is
/// added as loading; one already resident is left as it is.
pub fn add_loading_resident(snapshot: &mut RuntimeSnapshot, model: &ModelId)
    ensures
        same_but_residents(*final(snapshot), *old(snapshot)),
        first_resident(old(snapshot).residents@, model@) is Some ==> final(snapshot).residents@ == old(snapshot).residents@,
        first_resident(old(snapshot).residents@, model@) is None ==>
            final(snapshot).residents@.len() == old(snapshot).residents@.len() + 1
            && final(snapshot).residents@.drop_last() == old(snapshot).residents@
            && fresh_resident(final(snapshot).residents@.last(), model@, ResidencyState::Loading),
{
    match find_resident(&snapshot.residents, model) {
        Some(i) => {
            assert(old(snapshot).residents@[i as int].model_id@ == model@);
        },
        None => {
            snapshot.residents.push(ModelResident {
                model_id: model.clone(),
                state: ResidencyState::Loading,
                vram_mb: None,
                ram_mb: None,
                kv_cache_mb: None,
                loaded_since: None,
            });
            assert(snapshot.residents@.drop_last() =~= old(snapshot).residents@);
        },
    }
}

/// Unloads `model` from a mock runtime: every resident of it is dropped, the
/// others keep their order.
pub fn remove_resident(snapshot: &mut RuntimeSnapshot, model: &ModelId)
    ensures
        same_but_residents(*final(snapshot), *old(snapshot)),
        final(snapshot).residents@ == without_model(old(snapshot).residents@, model@),
{
    let ghost s = snapshot.residents@;
    let mut kept: Vec<ModelResident> = Vec::new();
    let mut i: usize = 0;
    while i < snapshot.residents.len()
        invariant
            0 <= i <= s.len(),
            s == snapshot.residents@,
            kept@ == without_model(s.take(i as int), model@),
        decreases s.len() - i,
    {
        proof {
            assert(s.take(i as int + 1).drop_last() =~= s.take(i as int));
        }
        if !snapshot.residents[i].model_id.same(model) {
            kept.push(snapshot.residents[i].clone());
        }
        i = i + 1;
    }
    assert(s.take(s.len() as int) =~= s);
    snapshot.residents = kept;
}

/// Records on a mock runtime that `request` started executing at
/// `started_at` (milliseconds since the Unix epoch).
pub fn record_execution(snapshot: &mut RuntimeSnapshot, request: &ExecutionRequest, started_at: i64)
    ensures
        final(snapshot).runtime_id == old(snapshot).runtime_id,
        final(snapshot).available == old(snapshot).available,
        final(snapshot).residents == old(snapshot).residents,
        final(snapshot).configured_models == old(snapshot).configured_models,
        final(snapshot).memory == old(snapshot).memory,
        final(snapshot).colocation == old(snapshot).colocation,
        final(snapshot).active_requests@ == old(snapshot).active_requests@.push(ActiveExecution {
            request_id: request.request_id,
            model_id: request.model_id,
            started_at,
        }),
{
    snapshot.active_requests.push(ActiveExecution {
        request_id: request.request_id.clone(),
        model_id: request.model_id.clone(),
        started_at,
    });
}

/// The snapshot a mock runtime starts from: available, holding `residents`.
pub fn mock_snapshot(runtime_id: RuntimeId, residents: Vec<ModelResident>) -> (r: RuntimeSnapshot)
    ensures
        r.runtime_id == runtime_id,
        r.available,
        r.residents == residents,
        r.configured_models@.len() == 0,
        memory_unknown(r.memory),
        r.active_requests@.len() == 0,
        r.colocation is None,
{
    let mut s = bare_snapshot(runtime_id, true);
    s.residents = residents;
    s
}

/// The text of the first chunk of the mock runtime's chat completion.
pub open spec fn mock_chunk_text(model: Seq<char>) -> Seq<char> {
    "data: {\"object\":\"chat.completion.chunk\",\"model\":\""@ + model
        + "\",\"choices\":[{\"index\":0,\"delta\":{\"role\":\"assistant\",\"content\":\"mock response from "@ + model
        + "\"}}]}\n\n"@
}

/// The server-sent events of the mock runtime's chat completion, in order:
/// one chunk echoing `selected_model` (so a caller can see which model the
/// request was sent to), then the end marker.
pub fn mock_completion_events(selected_model: &str) -> (r: Vec<String>)
    ensures
        r@.len() == 2,
        r@[0]@ == mock_chunk_text(selected_model@),
        r@[1]@ == "data: [DONE]\n\n"@,
{
    let mut chunk = String::new();
    push_str(&mut chunk, "data: {\"object\":\"chat.completion.chunk\",\"model\":\"");
    push_str(&mut chunk, selected_model);
    push_str(&mut chunk, "\",\"choices\":[{\"index\":0,\"delta\":{\"role\":\"assistant\",\"content\":\"mock response from ");
    push_str(&mut chunk, selected_model);
    push_str(&mut chunk, "\"}}]}\n\n");
    let mut done = String::new();
    push_str(&mut done, "data: [DONE]\n\n");
    proof {
        assert(chunk@ =~= mock_chunk_text(selected_model@));
        assert(done@ =~= "data: [DONE]\n\n"@);
    }
    let mut out: Vec<String> = Vec::new();
    out.push(chunk);
    out.push(done);
    out
}

} // verus!
