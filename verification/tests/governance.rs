use anemoi::config::{
    AnemoiConfig, ContinuityConfig, DomainConfig, ModelProfileConfig, ResidencyGroupConfig,
    RuntimeConfig,
};
use anemoi::governance::{
    apply_overrides, infer_family_and_class, parameter_billions, validate_governance,
    GovernanceOverrides, ModelProfileOverride, RosterOverride,
};
use anemoi::ids::{DomainId, ModelId, ResidencyGroupId, RuntimeId};

fn m(id: &str) -> ModelId {
    ModelId(id.to_string())
}
fn g(id: &str) -> ResidencyGroupId {
    ResidencyGroupId(id.to_string())
}
fn d(id: &str) -> DomainId {
    DomainId(id.to_string())
}

fn catalog_profile(class: &str) -> ModelProfileConfig {
    ModelProfileConfig {
        family: "qwen".to_string(),
        parameter_class: class.to_string(),
        context_window: None,
        vram_required_mb: None,
        ram_required_mb: None,
        cold_load_estimate_ms: None,
        supported_runtimes: vec![RuntimeId("llama_swap".to_string())],
        supports_streaming: None,
    }
}

fn roster(models: &[&str], allow_background_load: bool) -> ResidencyGroupConfig {
    ResidencyGroupConfig {
        purpose: Vec::new(),
        models: models.iter().map(|x| m(x)).collect(),
        keep_hot: false,
        allow_background_load,
        pinned: false,
    }
}

fn baseline() -> AnemoiConfig {
    AnemoiConfig {
        domains: vec![(d("coding"), DomainConfig { rosters: vec![g("fast")], live_roster: None })],
        residency_groups: vec![
            (g("big"), roster(&["qwen35b"], false)),
            (g("fast"), roster(&["qwen9b", "qwen4b"], true)),
        ],
        models: vec![
            (m("qwen35b"), catalog_profile("35b")),
            (m("qwen4b"), catalog_profile("4b")),
            (m("qwen9b"), catalog_profile("9b")),
        ],
        runtimes: vec![(
            RuntimeId("llama_swap".to_string()),
            RuntimeConfig {
                adapter: "llama_swap".to_string(),
                base_url: None,
                auth_token: None,
                initial_residents: Vec::new(),
                config_path: None,
            },
        )],
        continuity: ContinuityConfig {
            keep_small_worker_hot: true,
            background_load: true,
            max_blank_wait_ms: 1500,
            prefer_degraded_response_over_silence: true,
        },
    }
}

fn domain_of<'a>(c: &'a AnemoiConfig, id: &str) -> &'a DomainConfig {
    &c.domains.iter().find(|(k, _)| k.0 == id).expect("domain").1
}

fn group_of<'a>(c: &'a AnemoiConfig, id: &str) -> Option<&'a ResidencyGroupConfig> {
    c.residency_groups.iter().find(|(k, _)| k.0 == id).map(|(_, v)| v)
}

fn model_of<'a>(c: &'a AnemoiConfig, id: &str) -> &'a ModelProfileConfig {
    &c.models.iter().find(|(k, _)| k.0 == id).expect("model").1
}

#[test]
fn empty_overrides_yield_baseline() {
    let base = baseline();
    let effective = apply_overrides(&base, &GovernanceOverrides::default());
    assert_eq!(effective, base);
}

#[test]
fn create_roster_then_assign_to_domain_changes_effective_candidates() {
    let base = baseline();
    let mut overrides = GovernanceOverrides::default();
    // Operator creates a roster from a catalog model and assigns it to coding.
    overrides.residency_groups.push((
        g("escalation"),
        RosterOverride {
            models: vec![m("qwen35b")],
            allow_background_load: true,
            ..Default::default()
        },
    ));
    overrides
        .domain_rosters
        .push((d("coding"), vec![g("fast"), g("escalation")]));

    let effective = apply_overrides(&base, &overrides);
    assert_eq!(
        domain_of(&effective, "coding").rosters,
        vec![g("fast"), g("escalation")]
    );
    assert!(group_of(&effective, "escalation").is_some());
    // The escalation candidate is now reachable from the coding domain.
    assert!(validate_governance(&effective)
        .iter()
        .all(|w| w.code != "domain.no_escalation"));
}

#[test]
fn add_and_remove_model_from_roster() {
    let base = baseline();
    let mut overrides = GovernanceOverrides::default();
    overrides.residency_groups.push((
        g("fast"),
        RosterOverride {
            models: vec![m("qwen9b")], // removed qwen4b
            allow_background_load: true,
            ..Default::default()
        },
    ));
    let effective = apply_overrides(&base, &overrides);
    assert_eq!(group_of(&effective, "fast").expect("fast").models, vec![m("qwen9b")]);
}

#[test]
fn removed_residency_group_drops_from_effective() {
    let base = baseline();
    let mut overrides = GovernanceOverrides::default();
    overrides.removed_residency_groups.push(g("big"));
    let effective = apply_overrides(&base, &overrides);
    assert!(group_of(&effective, "big").is_none());
    assert!(group_of(&effective, "fast").is_some());
}

#[test]
fn operator_override_takes_precedence_over_inferred_profile_metadata() {
    let base = baseline();
    let mut overrides = GovernanceOverrides::default();
    // qwen9b would infer parameter_class "9b"; operator overrides context.
    overrides.model_profiles.push((
        m("qwen9b"),
        ModelProfileOverride {
            context_window: Some(262144),
            parameter_class: Some("12b".to_string()),
            ..Default::default()
        },
    ));
    let effective = apply_overrides(&base, &overrides);
    let profile = model_of(&effective, "qwen9b");
    assert_eq!(profile.context_window, Some(262144));
    assert_eq!(profile.parameter_class, "12b");
    // Untouched fields fall through to the baseline.
    assert_eq!(profile.family, "qwen");
}

#[test]
fn profile_override_synthesizes_base_for_catalog_only_model() {
    let base = baseline();
    let mut overrides = GovernanceOverrides::default();
    // A model present in a runtime catalog but absent from baseline models.
    overrides.model_profiles.push((
        m("gemma-4-31b-it"),
        ModelProfileOverride {
            supports_streaming: Some(true),
            ..Default::default()
        },
    ));
    let effective = apply_overrides(&base, &overrides);
    let profile = model_of(&effective, "gemma-4-31b-it");
    assert_eq!(profile.family, "gemma"); // inferred
    assert_eq!(profile.parameter_class, "31b"); // inferred
    assert_eq!(profile.supports_streaming, Some(true)); // operator-set
}

#[test]
fn validate_flags_empty_roster() {
    let base = baseline();
    let mut overrides = GovernanceOverrides::default();
    overrides.residency_groups.push((g("empty"), RosterOverride::default()));
    let effective = apply_overrides(&base, &overrides);
    assert!(validate_governance(&effective)
        .iter()
        .any(|w| w.code == "roster.empty" && w.target == "empty"));
}

#[test]
fn validate_flags_domain_stuck_below_escalation_floor() {
    // coding -> [fast] where fast tops out at 9b: no escalation candidate.
    let base = baseline();
    let warnings = validate_governance(&base);
    assert!(
        warnings
            .iter()
            .any(|w| w.code == "domain.no_escalation" && w.target == "coding"),
        "coding domain stuck at 9B must warn, got {warnings:?}"
    );
}

#[test]
fn infer_family_and_class_handles_common_ids() {
    assert_eq!(
        infer_family_and_class("qwen3.6-35b-a3b-mtp"),
        ("qwen".to_string(), "35b".to_string())
    );
    assert_eq!(
        infer_family_and_class("gemma-4-e2b-it"),
        ("gemma".to_string(), "2b".to_string())
    );
    assert_eq!(
        infer_family_and_class("minimax-256k"),
        ("minimax".to_string(), "unknown".to_string())
    );
}

#[test]
fn baseline_domain_config_helper_compiles() {
    // Touch DomainConfig so the import is exercised even if other tests change.
    let domain = DomainConfig {
        rosters: vec![g("fast")],
        live_roster: None,
    };
    assert_eq!(domain.rosters, vec![g("fast")]);
}

#[test]
fn parameter_billions_reads_leading_digits() {
    assert_eq!(parameter_billions("35b"), Some(35));
    assert_eq!(parameter_billions("9b"), Some(9));
    assert_eq!(parameter_billions("unknown"), None);
}

#[test]
fn later_override_entries_for_the_same_id_are_ignored() {
    let base = baseline();
    let mut overrides = GovernanceOverrides::default();
    overrides.residency_groups.push((g("fast"), RosterOverride { models: vec![m("qwen4b")], ..Default::default() }));
    overrides.residency_groups.push((g("fast"), RosterOverride { models: vec![m("qwen9b")], ..Default::default() }));
    let effective = apply_overrides(&base, &overrides);
    assert_eq!(group_of(&effective, "fast").expect("fast").models, vec![m("qwen4b")]);
}

#[test]
fn family_of_an_ascii_id_is_its_leading_letters() {
    assert_eq!(infer_family_and_class("gemma-4-31b-it"), ("gemma".to_string(), "31b".to_string()));
    assert_eq!(infer_family_and_class("4bit-model"), ("unknown".to_string(), "4b".to_string()));
}
