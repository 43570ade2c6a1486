use anemoi::config::{
    AnemoiConfig, ContinuityConfig, DomainConfig, ModelProfileConfig, ResidencyGroupConfig,
    RuntimeConfig,
};
use anemoi::decisions::{Decision, DecisionAction, DecisionStamp, RejectedOption};
use anemoi::ids::{DomainId, ModelId, RequestId, ResidencyGroupId, RuntimeId};
use anemoi::policy::scheduler::{PolicyError, Scheduler};
use anemoi::types::{
    ColocationConstraints, ExecutionMode, InferenceRequest, ModelResident, QualityFloor,
    ResidencyState, RuntimeMemorySnapshot, RuntimeSnapshot,
};

fn profile(family: &str, class: &str, ctx: u32, vram: u64, ram: u64, cold: u64, runtime: &str) -> ModelProfileConfig {
    ModelProfileConfig {
        family: family.to_string(),
        parameter_class: class.to_string(),
        context_window: Some(ctx),
        vram_required_mb: Some(vram),
        ram_required_mb: Some(ram),
        cold_load_estimate_ms: Some(cold),
        supported_runtimes: vec![RuntimeId(runtime.to_string())],
        supports_streaming: None,
    }
}

fn group(models: &[&str], keep_hot: bool, allow_background_load: bool) -> ResidencyGroupConfig {
    ResidencyGroupConfig {
        purpose: Vec::new(),
        models: models.iter().map(|m| ModelId(m.to_string())).collect(),
        keep_hot,
        allow_background_load,
        pinned: false,
    }
}

fn runtime(adapter: &str, base_url: Option<&str>) -> RuntimeConfig {
    RuntimeConfig {
        adapter: adapter.to_string(),
        base_url: base_url.map(|u| u.to_string()),
        auth_token: None,
        initial_residents: Vec::new(),
        config_path: None,
    }
}

fn domain(rosters: &[&str]) -> DomainConfig {
    DomainConfig {
        rosters: rosters.iter().map(|g| ResidencyGroupId(g.to_string())).collect(),
        live_roster: None,
    }
}

fn default_continuity() -> ContinuityConfig {
    ContinuityConfig {
        keep_small_worker_hot: true,
        background_load: true,
        max_blank_wait_ms: 1500,
        prefer_degraded_response_over_silence: true,
    }
}

/// The scheduling fixture: a coding domain over a hot small swarm and a
/// cold large group on the mock runtime.
fn candidate_config() -> AnemoiConfig {
    AnemoiConfig {
        domains: vec![(DomainId("coding".to_string()), domain(&["small_swarm", "large_models"]))],
        residency_groups: vec![
            (ResidencyGroupId("large_models".to_string()), group(&["qwen35_a3b"], false, true)),
            (ResidencyGroupId("small_swarm".to_string()), group(&["qwen9b", "granite8b"], true, true)),
        ],
        models: vec![
            (ModelId("granite8b".to_string()), profile("granite", "8b", 8192, 8000, 10000, 15000, "mock")),
            (ModelId("qwen35_a3b".to_string()), profile("qwen", "35b", 32768, 30000, 45000, 45000, "mock")),
            (ModelId("qwen9b".to_string()), profile("qwen", "9b", 32768, 9000, 12000, 18000, "mock")),
        ],
        runtimes: vec![(RuntimeId("mock".to_string()), runtime("mock", None))],
        continuity: default_continuity(),
    }
}

fn stamp() -> DecisionStamp {
    DecisionStamp { id: uuid::Uuid::new_v4(), created_at: 1_700_000_000_000 }
}

fn decide(scheduler: &Scheduler, request: &InferenceRequest, snapshots: &[RuntimeSnapshot]) -> Result<Decision, PolicyError> {
    scheduler.decide(request, snapshots, &Vec::new(), stamp())
}

fn candidate_request() -> InferenceRequest {
    InferenceRequest {
        id: RequestId::new(uuid::Uuid::new_v4().as_u128()),
        domain: DomainId("coding".to_string()),
        mode: ExecutionMode::Interactive,
        prompt_tokens_estimate: Some(1000),
        max_output_tokens: Some(500),
        latency_budget_ms: Some(1500),
        quality_floor: None,
        escalation_intent: None,
    }
}

fn bare_request() -> InferenceRequest {
    InferenceRequest {
        id: RequestId::new(uuid::Uuid::new_v4().as_u128()),
        domain: DomainId("coding".to_string()),
        mode: ExecutionMode::Interactive,
        prompt_tokens_estimate: None,
        max_output_tokens: None,
        latency_budget_ms: None,
        quality_floor: None,
        escalation_intent: None,
    }
}

fn snapshot(runtime: &str, available: bool, residents: Vec<(&str, ResidencyState, Option<u64>)>) -> RuntimeSnapshot {
    RuntimeSnapshot {
        runtime_id: RuntimeId(runtime.to_string()),
        available,
        residents: residents
            .into_iter()
            .map(|(model_id, state, vram_mb)| ModelResident {
                model_id: ModelId(model_id.to_string()),
                state,
                vram_mb,
                ram_mb: None,
                kv_cache_mb: None,
                loaded_since: None,
            })
            .collect(),
        configured_models: Vec::new(),
        memory: RuntimeMemorySnapshot::default(),
        active_requests: Vec::new(),
        colocation: None,
    }
}

fn candidate_snapshot(available: bool) -> RuntimeSnapshot {
    candidate_snapshot_with_residents(available, vec![("qwen9b", ResidencyState::HotGpu, Some(9000))])
}

fn candidate_snapshot_with_residents(available: bool, residents: Vec<(&str, ResidencyState, Option<u64>)>) -> RuntimeSnapshot {
    snapshot("mock", available, residents)
}

fn fast_only_config() -> AnemoiConfig {
    AnemoiConfig {
        domains: vec![(DomainId("coding".to_string()), domain(&["small_swarm"]))],
        residency_groups: vec![(ResidencyGroupId("small_swarm".to_string()), group(&["qwen9b"], true, true))],
        models: vec![(ModelId("qwen9b".to_string()), profile("qwen", "9b", 32768, 9000, 12000, 18000, "mock"))],
        runtimes: vec![(RuntimeId("mock".to_string()), runtime("mock", None))],
        continuity: default_continuity(),
    }
}

fn request_with_quality_floor(floor: &str) -> InferenceRequest {
    let mut request = candidate_request();
    request.quality_floor = Some(QualityFloor {
        minimum_parameter_class: Some(floor.to_string()),
    });
    request
}

// Two models with identical profiles in one keep-hot group; `model_order`
// controls the order they are listed (and therefore generated).
fn tie_config_ordered(model_order: &[&str]) -> AnemoiConfig {
    AnemoiConfig {
        domains: vec![(DomainId("coding".to_string()), domain(&["swarm"]))],
        residency_groups: vec![(ResidencyGroupId("swarm".to_string()), group(model_order, true, true))],
        models: vec![
            (ModelId("alpha".to_string()), profile("qwen", "9b", 32768, 9000, 12000, 18000, "mock")),
            (ModelId("beta".to_string()), profile("qwen", "9b", 32768, 9000, 12000, 18000, "mock")),
        ],
        runtimes: vec![(RuntimeId("mock".to_string()), runtime("mock", None))],
        continuity: default_continuity(),
    }
}

fn both_hot_snapshot() -> RuntimeSnapshot {
    snapshot(
        "mock",
        true,
        vec![
            ("alpha", ResidencyState::HotGpu, Some(9000)),
            ("beta", ResidencyState::HotGpu, Some(9000)),
        ],
    )
}

fn two_tier_ollama_config() -> AnemoiConfig {
    AnemoiConfig {
        domains: vec![(DomainId("coding".to_string()), domain(&["small_swarm", "large_models"]))],
        residency_groups: vec![
            (ResidencyGroupId("large_models".to_string()), group(&["qwen35_a3b"], false, true)),
            (ResidencyGroupId("small_swarm".to_string()), group(&["qwen9b"], true, true)),
        ],
        models: vec![
            (ModelId("qwen35_a3b".to_string()), profile("qwen", "35b", 32768, 30000, 45000, 45000, "ollama")),
            (ModelId("qwen9b".to_string()), profile("qwen", "9b", 32768, 9000, 12000, 18000, "ollama")),
        ],
        runtimes: vec![(RuntimeId("ollama".to_string()), runtime("mock", None))],
        continuity: default_continuity(),
    }
}

fn live_config(continuity: ContinuityConfig) -> AnemoiConfig {
    AnemoiConfig {
        domains: vec![(
            DomainId("coding".to_string()),
            DomainConfig { rosters: Vec::new(), live_roster: Some(RuntimeId("llama_swap".to_string())) },
        )],
        residency_groups: Vec::new(),
        models: Vec::new(),
        runtimes: vec![(RuntimeId("llama_swap".to_string()), runtime("mock", None))],
        continuity,
    }
}

fn live_snapshot(available: bool, configured: &[&str]) -> RuntimeSnapshot {
    let mut s = snapshot("llama_swap", available, vec![]);
    s.configured_models = configured.iter().map(|m| ModelId(m.to_string())).collect();
    s
}

// ---------------------------------------------------------------------------
// Candidate generation.

#[test]
fn generates_candidates_for_domain_rosters() {
    let scheduler = Scheduler::new(candidate_config());
    let generated = scheduler
        .generate_candidates(&candidate_request(), &[candidate_snapshot(true)])
        .expect("candidates");
    assert_eq!(
        generated
            .candidates
            .iter()
            .map(|candidate| candidate.model_id.0.clone())
            .collect::<Vec<_>>(),
        vec!["qwen9b", "granite8b", "qwen35_a3b"]
    );
    assert!(generated.rejected_options.is_empty());
}

#[test]
fn candidate_includes_residency_group() {
    let scheduler = Scheduler::new(candidate_config());
    let generated = scheduler
        .generate_candidates(&candidate_request(), &[candidate_snapshot(true)])
        .expect("candidates");
    assert_eq!(
        generated.candidates[0].group_id,
        ResidencyGroupId("small_swarm".to_string())
    );
    assert_eq!(
        generated.candidates[2].group_id,
        ResidencyGroupId("large_models".to_string())
    );
}

#[test]
fn candidate_includes_model_profile() {
    let scheduler = Scheduler::new(candidate_config());
    let generated = scheduler
        .generate_candidates(&candidate_request(), &[candidate_snapshot(true)])
        .expect("candidates");
    let qwen = generated
        .candidates
        .iter()
        .find(|candidate| candidate.model_id == ModelId("qwen9b".to_string()))
        .expect("qwen candidate");
    assert_eq!(qwen.model_profile.family, "qwen");
    assert_eq!(qwen.model_profile.parameter_class, "9b");
}

#[test]
fn candidate_includes_available_supported_runtime() {
    let scheduler = Scheduler::new(candidate_config());
    let generated = scheduler
        .generate_candidates(&candidate_request(), &[candidate_snapshot(true)])
        .expect("candidates");
    assert!(generated.candidates.iter().all(|candidate| {
        candidate.runtime_id == RuntimeId("mock".to_string())
            && matches!(
                candidate.action,
                DecisionAction::ReuseHot | DecisionAction::ColdLoad
            )
    }));
}

#[test]
fn rejects_model_without_available_runtime() {
    let scheduler = Scheduler::new(candidate_config());
    let generated = scheduler
        .generate_candidates(&candidate_request(), &[candidate_snapshot(false)])
        .expect("candidates");
    assert!(generated.candidates.is_empty());
    assert_eq!(generated.rejected_options.len(), 3);
    assert!(generated
        .rejected_options
        .iter()
        .all(|rejection| { rejection.reason == "no supported runtime is currently available" }));
}

#[test]
fn rejects_group_model_missing_profile() {
    let mut config = candidate_config();
    config.models.retain(|(id, _)| id.0 != "granite8b");
    let scheduler = Scheduler::new(config);
    let generated = scheduler
        .generate_candidates(&candidate_request(), &[candidate_snapshot(true)])
        .expect("candidates");
    assert_eq!(generated.candidates.len(), 2);
    assert_eq!(
        generated.rejected_options,
        vec![RejectedOption {
            model_id: Some(ModelId("granite8b".to_string())),
            runtime_id: None,
            reason: "model is referenced by a residency group but has no profile".to_string(),
        }]
    );
}

#[test]
fn candidate_order_is_deterministic() {
    let scheduler = Scheduler::new(candidate_config());
    let first = scheduler
        .generate_candidates(&candidate_request(), &[candidate_snapshot(true)])
        .expect("first");
    let second = scheduler
        .generate_candidates(&candidate_request(), &[candidate_snapshot(true)])
        .expect("second");
    assert_eq!(first, second);
    assert_eq!(
        first
            .candidates
            .iter()
            .map(|candidate| {
                (
                    candidate.group_id.0.clone(),
                    candidate.model_id.0.clone(),
                    candidate.runtime_id.0.clone(),
                )
            })
            .collect::<Vec<_>>(),
        vec![
            (
                "small_swarm".to_string(),
                "qwen9b".to_string(),
                "mock".to_string()
            ),
            (
                "small_swarm".to_string(),
                "granite8b".to_string(),
                "mock".to_string()
            ),
            (
                "large_models".to_string(),
                "qwen35_a3b".to_string(),
                "mock".to_string()
            ),
        ]
    );
}

#[test]
fn ambiguous_runtime_state_preserves_unknown_or_cold_candidate_reason() {
    let snapshot = snapshot("llama_swap", true, vec![]);
    let scheduler = Scheduler::new(candidate_config());
    let generated = scheduler
        .generate_candidates(&candidate_request(), &[snapshot])
        .expect("candidates");
    for candidate in &generated.candidates {
        assert_eq!(
            candidate.residency_state,
            ResidencyState::Cold,
            "model {} must be Cold when runtime provides no resident evidence",
            candidate.model_id.0
        );
    }
}

#[test]
fn decision_explanation_mentions_ambiguous_residency_evidence() {
    let snapshot = snapshot("llama_swap", true, vec![]);
    let scheduler = Scheduler::new(candidate_config());
    let decision = decide(&scheduler, &candidate_request(), &[snapshot]).expect("decision");
    let summary_lower = decision.explanation.summary.to_lowercase();
    let all_reasons = decision
        .explanation
        .reasons
        .iter()
        .map(|reason| reason.detail.to_lowercase())
        .collect::<Vec<_>>();
    let all_text = [summary_lower]
        .into_iter()
        .chain(all_reasons.iter().cloned())
        .collect::<Vec<_>>()
        .join(" ");
    assert!(
        all_text.contains("cold")
            || all_text.contains("no runtime")
            || decision.action == DecisionAction::Deny,
        "decision explanation should mention cold/unknown residency evidence: {}",
        decision.explanation.summary
    );
}

#[test]
fn decide_score_tie_breaks_on_generation_order() {
    let request = candidate_request();
    let snapshots = [both_hot_snapshot()];
    let alpha_first = decide(&Scheduler::new(tie_config_ordered(&["alpha", "beta"])), &request, &snapshots)
        .expect("decision");
    let beta_first = decide(&Scheduler::new(tie_config_ordered(&["beta", "alpha"])), &request, &snapshots)
        .expect("decision");
    assert_eq!(alpha_first.score.total, beta_first.score.total);
    assert_eq!(
        alpha_first.selected_model,
        Some(ModelId("alpha".to_string()))
    );
    assert_eq!(beta_first.selected_model, Some(ModelId("beta".to_string())));
}

#[test]
fn decide_score_tie_winner_is_stable_across_invocations() {
    let request = candidate_request();
    let snapshots = [both_hot_snapshot()];
    let scheduler = Scheduler::new(tie_config_ordered(&["alpha", "beta"]));
    let winners: std::collections::HashSet<_> = (0..32)
        .map(|_| {
            decide(&scheduler, &request, &snapshots)
                .expect("decision")
                .selected_model
                .map(|m| m.0)
        })
        .collect();
    assert_eq!(
        winners.len(),
        1,
        "score-tie winner must be deterministic across invocations, saw {winners:?}"
    );
    assert_eq!(
        winners.into_iter().next().unwrap(),
        Some("alpha".to_string())
    );
}

#[test]
fn live_roster_generates_candidates_from_configured_models() {
    let scheduler = Scheduler::new(live_config(ContinuityConfig {
        keep_small_worker_hot: false,
        background_load: false,
        max_blank_wait_ms: 5000,
        prefer_degraded_response_over_silence: false,
    }));
    let snapshot = live_snapshot(true, &["qwen3.5-9b-mtp", "qwen3.6-35b-a3b-mtp"]);
    let set = scheduler
        .generate_candidates(&bare_request(), &[snapshot])
        .expect("candidates");
    assert_eq!(set.candidates.len(), 2);
    assert!(set.rejected_options.is_empty());
    assert_eq!(
        set.candidates
            .iter()
            .map(|c| c.model_id.0.clone())
            .collect::<Vec<_>>(),
        vec!["qwen3.5-9b-mtp", "qwen3.6-35b-a3b-mtp"]
    );
    assert!(set
        .candidates
        .iter()
        .all(|c| c.group_id == ResidencyGroupId("live".to_string())));
}

#[test]
fn live_roster_synthesises_correct_family_and_parameter_class() {
    let scheduler = Scheduler::new(live_config(default_continuity()));
    let snapshot = live_snapshot(true, &["qwen3.6-35b-a3b-mtp"]);
    let set = scheduler
        .generate_candidates(&bare_request(), &[snapshot])
        .expect("candidates");
    let candidate = &set.candidates[0];
    assert_eq!(candidate.model_profile.family, "qwen");
    assert_eq!(candidate.model_profile.parameter_class, "35b");
}

#[test]
fn live_roster_returns_empty_candidates_when_runtime_unavailable() {
    let scheduler = Scheduler::new(live_config(default_continuity()));
    let snapshot = live_snapshot(false, &["qwen3.5-9b-mtp"]);
    let set = scheduler
        .generate_candidates(&bare_request(), &[snapshot])
        .expect("candidates");
    assert!(set.candidates.is_empty());
    assert_eq!(set.rejected_options.len(), 1);
    assert!(set.rejected_options[0].reason.contains("not available"));
}

#[test]
fn live_roster_error_when_runtime_snapshot_absent() {
    let scheduler = Scheduler::new(live_config(default_continuity()));
    let err = scheduler
        .generate_candidates(&bare_request(), &[])
        .expect_err("should error when runtime has no snapshot");
    assert!(matches!(err, PolicyError::LiveRosterRuntimeMissing(_, _)));
}

#[test]
fn unknown_domain_and_empty_roster_are_errors() {
    let scheduler = Scheduler::new(candidate_config());
    let mut request = candidate_request();
    request.domain = DomainId("writing".to_string());
    assert_eq!(
        scheduler.generate_candidates(&request, &[candidate_snapshot(true)]),
        Err(PolicyError::UnknownDomain(DomainId("writing".to_string())))
    );
    let mut config = candidate_config();
    config.domains[0].1.rosters.clear();
    let scheduler = Scheduler::new(config);
    assert_eq!(
        scheduler.generate_candidates(&candidate_request(), &[candidate_snapshot(true)]),
        Err(PolicyError::EmptyRoster(DomainId("coding".to_string())))
    );
}

// ---------------------------------------------------------------------------
// Continuity staging.

#[test]
fn avoids_cold_large_model_when_small_worker_is_hot() {
    let scheduler = Scheduler::new(two_tier_ollama_config());
    let mut request = candidate_request();
    request.prompt_tokens_estimate = Some(2000);
    request.max_output_tokens = Some(800);
    let snapshot = snapshot("ollama", true, vec![("qwen9b", ResidencyState::HotGpu, Some(9000))]);
    let decision = decide(&scheduler, &request, &[snapshot]).expect("decision");
    assert_eq!(decision.action, DecisionAction::StageBackground);
    assert_eq!(decision.selected_model, Some(ModelId("qwen9b".to_string())));
    assert_eq!(
        decision.background_model,
        Some(ModelId("qwen35_a3b".to_string()))
    );
    assert!(decision
        .explanation
        .reasons
        .iter()
        .any(|reason| reason.code == "continuity.stage_background"));
}

#[test]
fn colocation_matrix_gates_background_staging() {
    let mut request = candidate_request();
    request.prompt_tokens_estimate = Some(2000);
    request.max_output_tokens = Some(800);
    let m = |id: &str| ModelId(id.to_string());
    let snapshot_with = |colocation: Option<ColocationConstraints>| {
        let mut s = snapshot("ollama", true, vec![("qwen9b", ResidencyState::HotGpu, Some(9000))]);
        s.colocation = colocation;
        s
    };
    let scheduler = Scheduler::new(two_tier_ollama_config());
    let allowed = decide(
        &scheduler,
        &request,
        &[snapshot_with(Some(ColocationConstraints {
            loadouts: vec![vec![m("qwen9b"), m("qwen35_a3b")]],
        }))],
    )
    .expect("decision");
    assert_eq!(allowed.action, DecisionAction::StageBackground);
    assert_eq!(allowed.background_model, Some(m("qwen35_a3b")));
    let forbidden = decide(
        &scheduler,
        &request,
        &[snapshot_with(Some(ColocationConstraints {
            loadouts: vec![vec![m("qwen9b")], vec![m("qwen35_a3b")]],
        }))],
    )
    .expect("decision");
    assert_ne!(forbidden.action, DecisionAction::StageBackground);
    assert_eq!(forbidden.background_model, None);
    assert_eq!(forbidden.selected_model, Some(m("qwen9b")));
    assert!(
        forbidden
            .explanation
            .reasons
            .iter()
            .any(|reason| reason.code == "continuity.stage_blocked_colocation"),
        "a matrix-forbidden co-resident stage must be explained"
    );
}

#[test]
fn does_not_stage_background_when_policy_disallows_background_load() {
    let mut config = candidate_config();
    config.continuity.background_load = false;
    let scheduler = Scheduler::new(config);
    let decision = decide(&scheduler, &candidate_request(), &[candidate_snapshot(true)]).expect("decision");
    assert_ne!(decision.action, DecisionAction::StageBackground);
    assert_eq!(decision.background_model, None);
}

#[test]
fn does_not_stage_background_when_latency_budget_allows_cold_load() {
    let scheduler = Scheduler::new(candidate_config());
    let mut request = candidate_request();
    request.latency_budget_ms = Some(60_000);
    let decision = decide(&scheduler, &request, &[candidate_snapshot(true)]).expect("decision");
    assert_ne!(decision.action, DecisionAction::StageBackground);
    assert_eq!(decision.background_model, None);
}

#[test]
fn does_not_stage_background_without_hot_fallback() {
    let scheduler = Scheduler::new(candidate_config());
    let snapshot = snapshot("mock", true, vec![]);
    let decision = decide(&scheduler, &candidate_request(), &[snapshot]).expect("decision");
    assert_ne!(decision.action, DecisionAction::StageBackground);
    assert_eq!(decision.background_model, None);
}

#[test]
fn records_background_model_in_decision() {
    let scheduler = Scheduler::new(candidate_config());
    let decision = decide(&scheduler, &candidate_request(), &[candidate_snapshot(true)]).expect("decision");
    assert_eq!(decision.action, DecisionAction::StageBackground);
    assert_eq!(
        decision.background_model,
        Some(ModelId("qwen35_a3b".to_string()))
    );
}

#[test]
fn explanation_names_selected_and_staged_models() {
    let scheduler = Scheduler::new(candidate_config());
    let decision = decide(&scheduler, &candidate_request(), &[candidate_snapshot(true)]).expect("decision");
    let continuity_reason = decision
        .explanation
        .reasons
        .iter()
        .find(|reason| reason.code == "continuity.stage_background")
        .expect("continuity reason");
    assert!(continuity_reason.detail.contains("qwen9b"));
    assert!(continuity_reason.detail.contains("qwen35_a3b"));
    assert!(continuity_reason.detail.contains("45000ms"));
    assert!(continuity_reason.detail.contains("1500ms"));
    assert!(continuity_reason
        .detail
        .contains("prefers degraded response over silence"));
}

#[test]
fn score_includes_continuity_contribution() {
    let scheduler = Scheduler::new(candidate_config());
    let decision = decide(&scheduler, &candidate_request(), &[candidate_snapshot(true)]).expect("decision");
    assert!(decision
        .score
        .contributions
        .iter()
        .any(
            |contribution| contribution.label == "continuity background staging"
                && contribution.value == 50
        ));
}

// ---------------------------------------------------------------------------
// Quality floors.

#[test]
fn quality_floor_rejects_candidates_below_minimum_parameter_class() {
    let scheduler = Scheduler::new(fast_only_config());
    let decision = decide(&scheduler, &request_with_quality_floor("32b"), &[candidate_snapshot(true)])
        .expect("decision");
    assert_eq!(decision.action, DecisionAction::Deny);
    assert_eq!(decision.selected_model, None);
    assert!(
        decision
            .explanation
            .rejected_options
            .iter()
            .any(|rejected| {
                rejected.model_id == Some(ModelId("qwen9b".to_string()))
                    && rejected.reason.contains("9b")
                    && rejected.reason.contains("32b")
            }),
        "a denied quality-floor request must explain the undersized candidate"
    );
}

#[test]
fn quality_floor_allows_candidate_at_or_above_minimum_parameter_class() {
    let scheduler = Scheduler::new(candidate_config());
    let mut request = request_with_quality_floor("32b");
    request.latency_budget_ms = Some(60_000);
    let decision = decide(&scheduler, &request, &[candidate_snapshot(true)]).expect("decision");
    assert_eq!(decision.action, DecisionAction::ColdLoad);
    assert_eq!(
        decision.selected_model,
        Some(ModelId("qwen35_a3b".to_string()))
    );
    assert_eq!(decision.background_model, None);
    assert!(
        decision
            .explanation
            .rejected_options
            .iter()
            .any(|rejected| {
                rejected.model_id == Some(ModelId("qwen9b".to_string()))
                    && rejected.reason.contains("quality floor 32b")
            }),
        "the smaller hot worker should be rejected by the explicit quality floor"
    );
}

#[test]
fn quality_floor_explanation_names_requested_and_candidate_parameter_class() {
    let scheduler = Scheduler::new(candidate_config());
    let decision = decide(&scheduler, &request_with_quality_floor("32b"), &[candidate_snapshot(true)])
        .expect("decision");
    let reason = decision
        .explanation
        .reasons
        .iter()
        .find(|reason| reason.code == "quality_floor.degraded_fallback")
        .expect("quality-floor degraded fallback reason");
    assert!(reason.detail.contains("32b"));
    assert!(reason.detail.contains("qwen9b"));
    assert!(reason.detail.contains("9b"));
    assert!(reason.detail.contains("qwen35_a3b"));
    assert!(reason.detail.contains("35b"));
}

#[test]
fn escalation_selects_large_hot_model_when_available() {
    let scheduler = Scheduler::new(candidate_config());
    let snapshot = candidate_snapshot_with_residents(
        true,
        vec![
            ("qwen9b", ResidencyState::HotGpu, Some(9000)),
            ("qwen35_a3b", ResidencyState::HotGpu, Some(30000)),
        ],
    );
    let decision = decide(&scheduler, &request_with_quality_floor("32b"), &[snapshot]).expect("decision");
    assert_eq!(decision.action, DecisionAction::ReuseHot);
    assert_eq!(
        decision.selected_model,
        Some(ModelId("qwen35_a3b".to_string()))
    );
    assert_eq!(decision.background_model, None);
}

#[test]
fn escalation_uses_hot_worker_and_stages_large_model_when_latency_is_tight() {
    let scheduler = Scheduler::new(candidate_config());
    let decision = decide(&scheduler, &request_with_quality_floor("32b"), &[candidate_snapshot(true)])
        .expect("decision");
    assert_eq!(decision.action, DecisionAction::StageBackground);
    assert_eq!(decision.selected_model, Some(ModelId("qwen9b".to_string())));
    assert_eq!(
        decision.background_model,
        Some(ModelId("qwen35_a3b".to_string()))
    );
    assert!(decision.explanation.reasons.iter().any(|reason| {
        reason.code == "quality_floor.degraded_fallback"
            && reason.detail.contains("selected hot qwen9b")
            && reason.detail.contains("staging qualifying qwen35_a3b")
    }));
}

#[test]
fn escalation_does_not_silently_satisfy_32b_request_with_9b() {
    let scheduler = Scheduler::new(fast_only_config());
    let decision = decide(&scheduler, &request_with_quality_floor("32b"), &[candidate_snapshot(true)])
        .expect("decision");
    assert_eq!(decision.action, DecisionAction::Deny);
    assert_ne!(decision.selected_model, Some(ModelId("qwen9b".to_string())));
    assert!(
        decision
            .explanation
            .rejected_options
            .iter()
            .any(|rejected| {
                rejected.model_id == Some(ModelId("qwen9b".to_string()))
                    && rejected.reason.contains("quality floor 32b")
            }),
        "a 32b request cannot be quietly satisfied by the 9b-only roster"
    );
}

// ---------------------------------------------------------------------------
// Context windows.

#[test]
fn context_window_fit_rejects_candidate_too_small_for_request() {
    let scheduler = Scheduler::new(candidate_config());
    let mut request = candidate_request();
    request.prompt_tokens_estimate = Some(9000);
    request.max_output_tokens = Some(1);
    let generated = scheduler
        .generate_candidates(&request, &[candidate_snapshot(true)])
        .expect("candidates");
    assert!(
        generated
            .candidates
            .iter()
            .all(|candidate| candidate.model_id != ModelId("granite8b".to_string())),
        "granite8b must be rejected because its 8192-token context is too small"
    );
    assert!(
        generated.rejected_options.iter().any(|rejected| {
            rejected.model_id == Some(ModelId("granite8b".to_string()))
                && rejected.reason.contains("requires 9001")
                && rejected.reason.contains("8192")
        }),
        "rejected options should explain the required and available context window"
    );
}

#[test]
fn context_window_fit_allows_unknown_request_size() {
    let scheduler = Scheduler::new(candidate_config());
    let mut request = candidate_request();
    request.prompt_tokens_estimate = None;
    request.max_output_tokens = Some(500);
    let generated = scheduler
        .generate_candidates(&request, &[candidate_snapshot(true)])
        .expect("candidates");
    assert!(
        generated
            .candidates
            .iter()
            .any(|candidate| candidate.model_id == ModelId("granite8b".to_string())),
        "unknown prompt size must not create a false context-window rejection"
    );
}

#[test]
fn context_window_explanation_names_required_and_available_tokens() {
    let scheduler = Scheduler::new(candidate_config());
    let decision = decide(&scheduler, &candidate_request(), &[candidate_snapshot(true)]).expect("decision");
    assert!(
        decision.explanation.reasons.iter().any(|reason| {
            reason.code == "context_window.fit"
                && reason.detail.contains("1500 token")
                && reason.detail.contains("32768 token context window")
        }),
        "selected-model explanation should name required and available context tokens"
    );
}

// ---------------------------------------------------------------------------
// Scoring.

#[test]
fn scores_hot_small_model_before_large_model_for_fast_turn() {
    let scheduler = Scheduler::new(candidate_config());
    let decision = decide(&scheduler, &candidate_request(), &[candidate_snapshot(true)]).expect("decision");
    assert_eq!(decision.action, DecisionAction::StageBackground);
    assert_eq!(decision.selected_model, Some(ModelId("qwen9b".to_string())));
    assert_eq!(
        decision.background_model,
        Some(ModelId("qwen35_a3b".to_string()))
    );
}

#[test]
fn scores_keep_hot_resident_candidate_higher_than_cold_candidate() {
    let mut config = candidate_config();
    config.continuity.background_load = false;
    let scheduler = Scheduler::new(config);
    let decision = decide(&scheduler, &candidate_request(), &[candidate_snapshot(true)]).expect("decision");
    assert_eq!(decision.action, DecisionAction::ReuseHot);
    assert_eq!(decision.selected_model, Some(ModelId("qwen9b".to_string())));
}

#[test]
fn scores_large_model_higher_when_request_needs_quality_floor() {
    let scheduler = Scheduler::new(candidate_config());
    let mut request = candidate_request();
    request.quality_floor = Some(QualityFloor {
        minimum_parameter_class: Some("35b".to_string()),
    });
    request.latency_budget_ms = Some(90_000);
    let decision = decide(&scheduler, &request, &[candidate_snapshot(true)]).expect("decision");
    assert_eq!(decision.action, DecisionAction::ColdLoad);
    assert_eq!(
        decision.selected_model,
        Some(ModelId("qwen35_a3b".to_string()))
    );
}

#[test]
fn score_explanation_includes_reasons() {
    let scheduler = Scheduler::new(candidate_config());
    let decision = decide(&scheduler, &candidate_request(), &[candidate_snapshot(true)]).expect("decision");
    let labels = decision
        .score
        .contributions
        .iter()
        .map(|contribution| contribution.label.clone())
        .collect::<Vec<_>>();
    assert!(labels.contains(&"residency".to_string()));
    assert!(labels.contains(&"latency_budget".to_string()));
    assert!(labels.contains(&"continuity background staging".to_string()));
}

#[test]
fn decision_total_is_the_sum_of_its_contributions() {
    let scheduler = Scheduler::new(candidate_config());
    let decision = decide(&scheduler, &candidate_request(), &[candidate_snapshot(true)]).expect("decision");
    let sum: i32 = decision.score.contributions.iter().map(|c| c.value).sum();
    assert_eq!(decision.score.total, sum);
    assert!(!decision.explanation.reasons.is_empty());
}

#[test]
fn denied_when_no_candidate_exists() {
    let scheduler = Scheduler::new(candidate_config());
    let decision = decide(&scheduler, &candidate_request(), &[candidate_snapshot(false)]).expect("decision");
    assert_eq!(decision.action, DecisionAction::Deny);
    assert_eq!(decision.selected_model, None);
    assert_eq!(decision.explanation.rejected_options.len(), 3);
}

#[test]
fn decision_carries_the_stamp_it_was_given() {
    let scheduler = Scheduler::new(candidate_config());
    let id = uuid::Uuid::new_v4();
    let decision = scheduler
        .decide(&candidate_request(), &[candidate_snapshot(true)], &Vec::new(), DecisionStamp { id, created_at: 42 })
        .expect("decide");
    assert_eq!(decision.id, id);
    assert_eq!(decision.created_at, 42);
}
