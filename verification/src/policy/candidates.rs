//! Candidate (model, runtime) pairs generated for a request.

use vstd::prelude::*;
use vstd::string::*;
use crate::ids::{ModelId, RuntimeId, ResidencyGroupId};
use crate::types::{
    ModelProfile, ModelProfileView, ResidencyState, RuntimeMemorySnapshot, RuntimeSnapshot,
    ColocationConstraints, loadouts_view, InferenceRequest,
};
use crate::decisions::{
    Decision, DecisionAction, DecisionReason, DecisionScore, DecisionView, Explanation,
    RejectedOption, rejected_view, DecisionStamp,
};

verus! {

/// A candidate: one model on one runtime, with the evidence that scores it.
#[derive(Debug, PartialEq, Eq)]
pub struct Candidate {
    pub action: DecisionAction,
    pub model_id: ModelId,
    pub runtime_id: RuntimeId,
    pub group_id: ResidencyGroupId,
    pub model_profile: ModelProfile,
    pub residency_state: ResidencyState,
    pub load_estimate_ms: u64,
    pub runtime_memory: RuntimeMemorySnapshot,
    pub active_request_count: usize,
    pub group_keep_hot: bool,
    /// Colocation feasibility of the target runtime; `None` is unknown.
    pub colocation: Option<ColocationConstraints>,
}

/// The mathematical content of a [`Candidate`].
pub struct CandidateView {
    pub action: DecisionAction,
    pub model_id: Seq<char>,
    pub runtime_id: Seq<char>,
    pub group_id: Seq<char>,
    pub model_profile: ModelProfileView,
    pub residency_state: ResidencyState,
    pub load_estimate_ms: u64,
    pub runtime_memory: RuntimeMemorySnapshot,
    pub active_request_count: usize,
    pub group_keep_hot: bool,
    pub colocation: Option<Seq<Seq<Seq<char>>>>,
}

/// The view of an optional constraint set.
pub open spec fn colocation_view(c: Option<ColocationConstraints>) -> Option<Seq<Seq<Seq<char>>>> {
    match c {
        Some(x) => Some(loadouts_view(x)),
        None => None,
    }
}

impl View for Candidate {
    type V = CandidateView;

    open spec fn view(&self) -> CandidateView {
        CandidateView {
            action: self.action,
            model_id: self.model_id@,
            runtime_id: self.runtime_id@,
            group_id: self.group_id@,
            model_profile: self.model_profile@,
            residency_state: self.residency_state,
            load_estimate_ms: self.load_estimate_ms,
            runtime_memory: self.runtime_memory,
            active_request_count: self.active_request_count,
            group_keep_hot: self.group_keep_hot,
            colocation: colocation_view(self.colocation),
        }
    }
}

/// Clones an optional constraint set.
pub fn clone_colocation(c: &Option<ColocationConstraints>) -> (r: Option<ColocationConstraints>)
    ensures
        colocation_view(r) == colocation_view(*c),
{
    match c {
        Some(x) => Some(x.clone()),
        None => None,
    }
}

impl Clone for Candidate {
    fn clone(&self) -> (r: Self)
        ensures
            r@ == self@,
    {
        Candidate {
            action: self.action,
            model_id: self.model_id.clone(),
            runtime_id: self.runtime_id.clone(),
            group_id: self.group_id.clone(),
            model_profile: self.model_profile.clone(),
            residency_state: self.residency_state,
            load_estimate_ms: self.load_estimate_ms,
            runtime_memory: self.runtime_memory,
            active_request_count: self.active_request_count,
            group_keep_hot: self.group_keep_hot,
            colocation: clone_colocation(&self.colocation),
        }
    }
}

/// The candidates of a request and the options rejected on the way.
#[derive(Debug, PartialEq, Eq)]
pub struct CandidateSet {
    pub candidates: Vec<Candidate>,
    pub rejected_options: Vec<crate::decisions::RejectedOption>,
}

/// The views of a sequence of candidates.
pub open spec fn candidates_view(s: Seq<Candidate>) -> Seq<CandidateView> {
    s.map_values(|c: Candidate| c@)
}

/// The state of the first resident of `snapshot` that is `model`, or `Cold`.
pub open spec fn resident_state(residents: Seq<crate::types::ModelResident>, model: Seq<char>) -> ResidencyState
    decreases residents.len(),
{
    if residents.len() == 0 {
        ResidencyState::Cold
    } else if residents[0].model_id@ == model {
        residents[0].state
    } else {
        resident_state(residents.drop_first(), model)
    }
}

/// The action a residency state calls for: reuse when hot or serving,
/// promote when warm, partial or loading, cold-load when cold or failed, and
/// defer while draining or evicting.
pub open spec fn action_for(state: ResidencyState) -> DecisionAction {
    match state {
        ResidencyState::HotGpu | ResidencyState::Serving => DecisionAction::ReuseHot,
        ResidencyState::WarmCpu | ResidencyState::Partial | ResidencyState::Loading => DecisionAction::PromoteWarm,
        ResidencyState::Cold | ResidencyState::Failed => DecisionAction::ColdLoad,
        ResidencyState::Draining | ResidencyState::Evicting => DecisionAction::Defer,
    }
}

/// The load estimate for an action: the profile's cold-load estimate
/// (default 30 s) for a cold load, a third of it (default 10 s) for a
/// promotion, nothing otherwise.
pub open spec fn load_estimate_for(action: DecisionAction, cold: Option<u64>) -> u64 {
    match action {
        DecisionAction::ColdLoad => match cold { Some(x) => x, None => 30_000 },
        DecisionAction::PromoteWarm => (match cold { Some(x) => x, None => 10_000 }) / 3,
        _ => 0,
    }
}

/// The candidate for `model` on `runtime_id` as observed in `snapshot`.
pub open spec fn spec_candidate(
    group_id: Seq<char>,
    keep_hot: bool,
    model: ModelProfileView,
    runtime_id: Seq<char>,
    snapshot: RuntimeSnapshot,
) -> CandidateView {
    let state = resident_state(snapshot.residents@, model.id);
    let action = action_for(state);
    CandidateView {
        action,
        model_id: model.id,
        runtime_id,
        group_id,
        model_profile: model,
        residency_state: state,
        load_estimate_ms: load_estimate_for(action, model.cold_load_estimate_ms),
        runtime_memory: snapshot.memory,
        active_request_count: snapshot.active_requests@.len() as usize,
        group_keep_hot: keep_hot,
        colocation: colocation_view(snapshot.colocation),
    }
}

fn find_resident_state(snapshot: &RuntimeSnapshot, model: &ModelId) -> (r: ResidencyState)
    ensures
        r == resident_state(snapshot.residents@, model@),
{
    let mut i: usize = 0;
    assert(snapshot.residents@.skip(0) =~= snapshot.residents@);
    while i < snapshot.residents.len()
        invariant
            0 <= i <= snapshot.residents@.len(),
            resident_state(snapshot.residents@, model@) == resident_state(snapshot.residents@.skip(i as int), model@),
        decreases snapshot.residents@.len() - i,
    {
        assert(snapshot.residents@.skip(i as int).drop_first() =~= snapshot.residents@.skip(i as int + 1));
        if snapshot.residents[i].model_id.same(model) {
            return snapshot.residents[i].state;
        }
        i = i + 1;
    }
    ResidencyState::Cold
}

/// Builds the candidate for `model` on `runtime_id` from the runtime's
/// snapshot: its residency there decides the action and load estimate.
pub fn generate_candidate(
    group_id: &ResidencyGroupId,
    keep_hot: bool,
    model: &ModelProfile,
    runtime_id: &RuntimeId,
    snapshot: &RuntimeSnapshot,
) -> (r: Candidate)
    ensures
        r@ == spec_candidate(group_id@, keep_hot, model@, runtime_id@, *snapshot),
{
    let state = find_resident_state(snapshot, &model.id);
    let action = match state {
        ResidencyState::HotGpu | ResidencyState::Serving => DecisionAction::ReuseHot,
        ResidencyState::WarmCpu | ResidencyState::Partial | ResidencyState::Loading => DecisionAction::PromoteWarm,
        ResidencyState::Cold | ResidencyState::Failed => DecisionAction::ColdLoad,
        ResidencyState::Draining | ResidencyState::Evicting => DecisionAction::Defer,
    };
    let load_estimate_ms = match action {
        DecisionAction::ColdLoad => match model.cold_load_estimate_ms { Some(x) => x, None => 30_000 },
        DecisionAction::PromoteWarm => (match model.cold_load_estimate_ms { Some(x) => x, None => 10_000 }) / 3,
        _ => 0,
    };
    Candidate {
        action,
        model_id: model.id.clone(),
        runtime_id: runtime_id.clone(),
        group_id: group_id.clone(),
        model_profile: model.clone(),
        residency_state: state,
        load_estimate_ms,
        runtime_memory: snapshot.memory,
        active_request_count: snapshot.active_requests.len(),
        group_keep_hot: keep_hot,
        colocation: clone_colocation(&snapshot.colocation),
    }
}

/// The decision that denies `request`: nothing selected, a zero score, one
/// `no_candidate` reason, and the options that were rejected.
pub open spec fn deny_view(
    request: InferenceRequest,
    rejected: Seq<(Option<Seq<char>>, Option<Seq<char>>, Seq<char>)>,
) -> DecisionView {
    DecisionView {
        request_id: request.id@,
        action: DecisionAction::Deny,
        selected_model: None,
        selected_runtime: None,
        selected_group: None,
        background_model: None,
        total: 0,
        contributions: Seq::empty(),
        summary: "No runnable model candidate was available."@,
        reasons: seq![("no_candidate"@, "all configured model/runtime options were rejected"@, -100i32)],
        rejected_options: rejected,
    }
}

/// Denies `request`, recording the rejected options (see [`deny_view`]).
pub fn deny_decision(request: &InferenceRequest, rejected_options: Vec<RejectedOption>, stamp: DecisionStamp) -> (r: Decision)
    ensures
        r@ == deny_view(*request, rejected_view(rejected_options@)),
        r.id == stamp.id,
        r.created_at == stamp.created_at,
{
    let reason = DecisionReason {
        code: String::from_str("no_candidate"),
        detail: String::from_str("all configured model/runtime options were rejected"),
        impact: -100,
    };
    let reasons = vec![reason];
    assert(crate::decisions::reasons_view(reasons@) =~= seq![reason@]);
    let none: Vec<crate::decisions::ScoreContribution> = Vec::new();
    assert(crate::decisions::contributions_view(none@) =~= Seq::<(Seq<char>, i32)>::empty());
    Decision {
        id: stamp.id,
        request_id: request.id.clone(),
        action: DecisionAction::Deny,
        selected_model: None,
        selected_runtime: None,
        selected_group: None,
        background_model: None,
        score: DecisionScore { total: 0, contributions: none },
        explanation: Explanation {
            summary: String::from_str("No runnable model candidate was available."),
            reasons,
            rejected_options,
        },
        created_at: stamp.created_at,
    }
}

} // verus!
