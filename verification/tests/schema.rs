use anemoi::config::{
    AnemoiConfig, ContinuityConfig, DomainConfig, ModelProfileConfig, ResidencyGroupConfig,
    RuntimeConfig,
};
use anemoi::ids::{DomainId, ModelId, ResidencyGroupId, RuntimeId};
use anemoi::validation::validate_config;

fn profile(family: &str, class: &str, ctx: u32, vram: u64, ram: u64, cold: u64, runtime: &str) -> ModelProfileConfig {
    ModelProfileConfig {
        family: family.to_string(),
        parameter_class: class.to_string(),
        context_window: Some(ctx),
        vram_required_mb: Some(vram),
        ram_required_mb: Some(ram),
        cold_load_estimate_ms: Some(cold),
        supported_runtimes: vec![RuntimeId(runtime.to_string())],
        supports_streaming: None,
    }
}

fn group(models: &[&str], keep_hot: bool, allow_background_load: bool) -> ResidencyGroupConfig {
    ResidencyGroupConfig {
        purpose: Vec::new(),
        models: models.iter().map(|m| ModelId(m.to_string())).collect(),
        keep_hot,
        allow_background_load,
        pinned: false,
    }
}

fn runtime(adapter: &str, base_url: Option<&str>) -> RuntimeConfig {
    RuntimeConfig {
        adapter: adapter.to_string(),
        base_url: base_url.map(|u| u.to_string()),
        auth_token: None,
        initial_residents: Vec::new(),
        config_path: None,
    }
}

fn domain(rosters: &[&str]) -> DomainConfig {
    DomainConfig {
        rosters: rosters.iter().map(|g| ResidencyGroupId(g.to_string())).collect(),
        live_roster: None,
    }
}

fn default_continuity() -> ContinuityConfig {
    ContinuityConfig {
        keep_small_worker_hot: true,
        background_load: true,
        max_blank_wait_ms: 1500,
        prefer_degraded_response_over_silence: true,
    }
}

/// The scheduling fixture: a coding domain over a hot small swarm and a
/// cold large group on the mock runtime.
fn candidate_config() -> AnemoiConfig {
    AnemoiConfig {
        domains: vec![(DomainId("coding".to_string()), domain(&["small_swarm", "large_models"]))],
        residency_groups: vec![
            (ResidencyGroupId("large_models".to_string()), group(&["qwen35_a3b"], false, true)),
            (ResidencyGroupId("small_swarm".to_string()), group(&["qwen9b", "granite8b"], true, true)),
        ],
        models: vec![
            (ModelId("granite8b".to_string()), profile("granite", "8b", 8192, 8000, 10000, 15000, "mock")),
            (ModelId("qwen35_a3b".to_string()), profile("qwen", "35b", 32768, 30000, 45000, 45000, "mock")),
            (ModelId("qwen9b".to_string()), profile("qwen", "9b", 32768, 9000, 12000, 18000, "mock")),
        ],
        runtimes: vec![(RuntimeId("mock".to_string()), runtime("mock", None))],
        continuity: default_continuity(),
    }
}

fn live_llama_swap_config() -> AnemoiConfig {
    let mut small = group(&["qwen9b"], true, true);
    small.purpose = vec!["interactive coding continuity".to_string()];
    let mut large = group(&["qwen35_a3b"], false, true);
    large.purpose = vec!["higher quality coding synthesis".to_string()];
    AnemoiConfig {
        domains: vec![(DomainId("coding".to_string()), domain(&["small_swarm", "large_models"]))],
        residency_groups: vec![
            (ResidencyGroupId("large_models".to_string()), large),
            (ResidencyGroupId("small_swarm".to_string()), small),
        ],
        models: vec![
            (ModelId("qwen35_a3b".to_string()), profile("qwen", "35b", 32768, 30000, 45000, 45000, "llama_swap")),
            (ModelId("qwen9b".to_string()), profile("qwen", "9b", 32768, 9000, 12000, 18000, "llama_swap")),
        ],
        runtimes: vec![(RuntimeId("llama_swap".to_string()), runtime("llama_swap", Some("http://127.0.0.1:8085")))],
        continuity: default_continuity(),
    }
}

#[test]
fn accepts_live_llama_swap_example_config() {
    let config = live_llama_swap_config();
    let diagnostics = validate_config(&config);
    assert_eq!(diagnostics, Vec::new());
}

#[test]
fn live_config_uses_environment_for_auth() {
    let mut rt = runtime("llama_swap", Some("http://127.0.0.1:8085"));
    rt.auth_token = Some("${ANEMOI_LLAMA_SWAP_AUTH_TOKEN}".to_string());
    let mut swarm = group(&["qwen9b"], false, false);
    swarm.purpose = Vec::new();
    let config = AnemoiConfig {
        domains: vec![(DomainId("coding".to_string()), domain(&["small_swarm"]))],
        residency_groups: vec![(ResidencyGroupId("small_swarm".to_string()), swarm)],
        models: vec![(
            ModelId("qwen9b".to_string()),
            ModelProfileConfig {
                family: "qwen".to_string(),
                parameter_class: "9b".to_string(),
                context_window: None,
                vram_required_mb: None,
                ram_required_mb: None,
                cold_load_estimate_ms: None,
                supported_runtimes: vec![RuntimeId("llama_swap".to_string())],
                supports_streaming: None,
            },
        )],
        runtimes: vec![(RuntimeId("llama_swap".to_string()), rt)],
        continuity: default_continuity(),
    };

    let diagnostics = validate_config(&config);
    assert_eq!(diagnostics, Vec::new());
    assert_eq!(
        config.runtimes[0].1.auth_token,
        Some("${ANEMOI_LLAMA_SWAP_AUTH_TOKEN}".to_string())
    );
}

#[test]
fn into_profile_carries_supports_streaming() {
    let config = ModelProfileConfig {
        family: "qwen".to_string(),
        parameter_class: "9b".to_string(),
        context_window: None,
        vram_required_mb: None,
        ram_required_mb: None,
        cold_load_estimate_ms: None,
        supported_runtimes: vec![RuntimeId("llama_swap".to_string())],
        supports_streaming: Some(true),
    };
    let profile = config.into_profile(ModelId("qwen9b".to_string()));
    assert_eq!(profile.supports_streaming, Some(true));
    assert_eq!(profile.id, ModelId("qwen9b".to_string()));
    assert_eq!(profile.parameter_class, "9b");
}

#[test]
fn live_config_keeps_small_worker_and_large_target_in_distinct_groups() {
    let config = live_llama_swap_config();
    let small_group = &config
        .residency_groups
        .iter()
        .find(|(id, _)| id.0 == "small_swarm")
        .expect("small_swarm group")
        .1;
    let large_group = &config
        .residency_groups
        .iter()
        .find(|(id, _)| id.0 == "large_models")
        .expect("large_models group")
        .1;
    assert_eq!(small_group.models, vec![ModelId("qwen9b".to_string())]);
    assert_eq!(large_group.models, vec![ModelId("qwen35_a3b".to_string())]);
    assert!(small_group.keep_hot);
    assert!(!large_group.keep_hot);
}

#[test]
fn group_and_resident_configs_convert_field_for_field() {
    let config = group(&["a", "b"], true, false);
    let g = config.into_group(ResidencyGroupId("g".to_string()));
    assert_eq!(g.id, ResidencyGroupId("g".to_string()));
    assert_eq!(g.models, vec![ModelId("a".to_string()), ModelId("b".to_string())]);
    assert!(g.keep_hot);
    assert!(!g.allow_background_load);
    assert_eq!(candidate_config().models.len(), 3);
}
