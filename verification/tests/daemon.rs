use anemoi::config::{
    AnemoiConfig, ContinuityConfig, DomainConfig, ModelProfileConfig, ResidencyGroupConfig,
    RuntimeConfig,
};
use anemoi::daemon::{Governance, GovernanceError};
use anemoi::governance::{GovernanceOverrides, RosterOverride};
use anemoi::ids::{DomainId, ModelId, ResidencyGroupId, RuntimeId};

fn profile(class: &str) -> ModelProfileConfig {
    ModelProfileConfig {
        family: "qwen".to_string(),
        parameter_class: class.to_string(),
        context_window: None,
        vram_required_mb: None,
        ram_required_mb: None,
        cold_load_estimate_ms: None,
        supported_runtimes: vec![RuntimeId("llama_swap".to_string())],
        supports_streaming: None,
    }
}

fn baseline() -> AnemoiConfig {
    AnemoiConfig {
        domains: vec![(
            DomainId("coding".to_string()),
            DomainConfig { rosters: vec![ResidencyGroupId("fast".into())], live_roster: None },
        )],
        residency_groups: vec![(
            ResidencyGroupId("fast".into()),
            ResidencyGroupConfig {
                purpose: Vec::new(),
                models: vec![ModelId("qwen9b".into())],
                keep_hot: false,
                allow_background_load: true,
                pinned: false,
            },
        )],
        models: vec![
            (ModelId("qwen35b".into()), profile("35b")),
            (ModelId("qwen9b".into()), profile("9b")),
        ],
        runtimes: vec![(
            RuntimeId("llama_swap".into()),
            RuntimeConfig {
                adapter: "mock".to_string(),
                base_url: None,
                auth_token: None,
                initial_residents: Vec::new(),
                config_path: None,
            },
        )],
        continuity: ContinuityConfig {
            keep_small_worker_hot: true,
            background_load: true,
            max_blank_wait_ms: 1500,
            prefer_degraded_response_over_silence: true,
        },
    }
}

fn fast_models(gov: &Governance) -> Vec<ModelId> {
    gov.effective()
        .config
        .residency_groups
        .iter()
        .find(|(id, _)| id.0 == "fast")
        .expect("fast")
        .1
        .models
        .iter()
        .map(|m| ModelId(m.0.clone()))
        .collect()
}

#[test]
fn mutate_rebuilds_effective_bundle_immediately() {
    let mut gov = Governance::new(baseline(), GovernanceOverrides::default());
    assert_eq!(fast_models(&gov), vec![ModelId("qwen9b".into())]);

    gov.mutate(|ov, _baseline| {
        ov.residency_groups.push((
            ResidencyGroupId("fast".into()),
            RosterOverride {
                models: vec![ModelId("qwen9b".into()), ModelId("qwen35b".into())],
                allow_background_load: true,
                ..Default::default()
            },
        ));
        Ok(())
    })
    .expect("mutate");

    // The effective bundle reflects the edit right away.
    assert_eq!(
        fast_models(&gov),
        vec![ModelId("qwen9b".into()), ModelId("qwen35b".into())]
    );
}

#[test]
fn rejected_mutation_leaves_state_unchanged() {
    let mut gov = Governance::new(baseline(), GovernanceOverrides::default());
    let before = gov.overrides_snapshot();
    let result = gov.mutate(|_ov, _baseline| Err(GovernanceError::Conflict("nope".into())));
    assert!(result.is_err());
    assert_eq!(gov.overrides_snapshot(), before);
    assert_eq!(result.unwrap_err().message(), "conflict: nope");
}

#[test]
fn commit_installs_overrides_and_keeps_the_baseline() {
    let mut gov = Governance::new(baseline(), GovernanceOverrides::default());
    let mut ov = GovernanceOverrides::default();
    ov.removed_residency_groups.push(ResidencyGroupId("fast".into()));
    gov.commit(ov);
    assert!(gov.effective().config.residency_groups.is_empty());
    assert_eq!(gov.baseline(), &baseline());
    assert_eq!(gov.overrides_snapshot().removed_residency_groups, vec![ResidencyGroupId("fast".into())]);
}

#[test]
fn governance_warnings_follow_the_effective_config() {
    let gov = Governance::new(baseline(), GovernanceOverrides::default());
    let warnings = gov.warnings();
    assert!(warnings.iter().any(|w| w.code == "domain.no_escalation" && w.target == "coding"));
}

#[test]
fn governance_errors_are_human_readable() {
    assert_eq!(GovernanceError::NotFound("x".into()).message(), "not found: x");
    assert_eq!(GovernanceError::Invalid("y".into()).message(), "invalid: y");
    assert_eq!(
        GovernanceError::Persist("disk".into()).message(),
        "failed to persist governance overrides: disk"
    );
}
