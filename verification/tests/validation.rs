use anemoi::config::{
    AnemoiConfig, ContinuityConfig, DomainConfig, ModelProfileConfig, ResidencyGroupConfig,
    RuntimeConfig, RuntimeResidentConfig,
};
use anemoi::ids::{DomainId, ModelId, ResidencyGroupId, RuntimeId};
use anemoi::types::ResidencyState;
use anemoi::validation::{
    expand_env_vars, validate_config, ConfigDiagnostic, ConfigValidationError, DiagnosticSeverity,
};

fn profile(family: &str, class: &str, ctx: u32, vram: u64, ram: u64, cold: u64, runtime: &str) -> ModelProfileConfig {
    ModelProfileConfig {
        family: family.to_string(),
        parameter_class: class.to_string(),
        context_window: Some(ctx),
        vram_required_mb: Some(vram),
        ram_required_mb: Some(ram),
        cold_load_estimate_ms: Some(cold),
        supported_runtimes: vec![RuntimeId(runtime.to_string())],
        supports_streaming: None,
    }
}

fn group(models: &[&str], keep_hot: bool, allow_background_load: bool) -> ResidencyGroupConfig {
    ResidencyGroupConfig {
        purpose: Vec::new(),
        models: models.iter().map(|m| ModelId(m.to_string())).collect(),
        keep_hot,
        allow_background_load,
        pinned: false,
    }
}

fn runtime(adapter: &str, base_url: Option<&str>) -> RuntimeConfig {
    RuntimeConfig {
        adapter: adapter.to_string(),
        base_url: base_url.map(|u| u.to_string()),
        auth_token: None,
        initial_residents: Vec::new(),
        config_path: None,
    }
}

fn domain(rosters: &[&str]) -> DomainConfig {
    DomainConfig {
        rosters: rosters.iter().map(|g| ResidencyGroupId(g.to_string())).collect(),
        live_roster: None,
    }
}

fn default_continuity() -> ContinuityConfig {
    ContinuityConfig {
        keep_small_worker_hot: true,
        background_load: true,
        max_blank_wait_ms: 1500,
        prefer_degraded_response_over_silence: true,
    }
}

/// The scheduling fixture: a coding domain over a hot small swarm and a
/// cold large group on the mock runtime.
fn candidate_config() -> AnemoiConfig {
    AnemoiConfig {
        domains: vec![(DomainId("coding".to_string()), domain(&["small_swarm", "large_models"]))],
        residency_groups: vec![
            (ResidencyGroupId("large_models".to_string()), group(&["qwen35_a3b"], false, true)),
            (ResidencyGroupId("small_swarm".to_string()), group(&["qwen9b", "granite8b"], true, true)),
        ],
        models: vec![
            (ModelId("granite8b".to_string()), profile("granite", "8b", 8192, 8000, 10000, 15000, "mock")),
            (ModelId("qwen35_a3b".to_string()), profile("qwen", "35b", 32768, 30000, 45000, 45000, "mock")),
            (ModelId("qwen9b".to_string()), profile("qwen", "9b", 32768, 9000, 12000, 18000, "mock")),
        ],
        runtimes: vec![(RuntimeId("mock".to_string()), runtime("mock", None))],
        continuity: default_continuity(),
    }
}

/// The example deployment: the scheduling fixture with `qwen9b` resident
/// on the mock runtime from the start.
fn example_config() -> AnemoiConfig {
    let mut config = candidate_config();
    runtime_mut(&mut config, "mock").initial_residents.push(RuntimeResidentConfig {
        model_id: ModelId("qwen9b".to_string()),
        state: ResidencyState::HotGpu,
        vram_mb: Some(9000),
        ram_mb: Some(12000),
        kv_cache_mb: None,
    });
    config
}

fn live_llama_swap_config() -> AnemoiConfig {
    let mut small = group(&["qwen9b"], true, true);
    small.purpose = vec!["interactive coding continuity".to_string()];
    let mut large = group(&["qwen35_a3b"], false, true);
    large.purpose = vec!["higher quality coding synthesis".to_string()];
    AnemoiConfig {
        domains: vec![(DomainId("coding".to_string()), domain(&["small_swarm", "large_models"]))],
        residency_groups: vec![
            (ResidencyGroupId("large_models".to_string()), large),
            (ResidencyGroupId("small_swarm".to_string()), small),
        ],
        models: vec![
            (ModelId("qwen35_a3b".to_string()), profile("qwen", "35b", 32768, 30000, 45000, 45000, "llama_swap")),
            (ModelId("qwen9b".to_string()), profile("qwen", "9b", 32768, 9000, 12000, 18000, "llama_swap")),
        ],
        runtimes: vec![(RuntimeId("llama_swap".to_string()), runtime("llama_swap", Some("http://127.0.0.1:8085")))],
        continuity: default_continuity(),
    }
}

fn domain_mut<'a>(c: &'a mut AnemoiConfig, id: &str) -> &'a mut DomainConfig {
    &mut c.domains.iter_mut().find(|(k, _)| k.0 == id).expect("domain").1
}

fn group_mut<'a>(c: &'a mut AnemoiConfig, id: &str) -> &'a mut ResidencyGroupConfig {
    &mut c.residency_groups.iter_mut().find(|(k, _)| k.0 == id).expect("group").1
}

fn model_mut<'a>(c: &'a mut AnemoiConfig, id: &str) -> &'a mut ModelProfileConfig {
    &mut c.models.iter_mut().find(|(k, _)| k.0 == id).expect("model").1
}

fn runtime_mut<'a>(c: &'a mut AnemoiConfig, id: &str) -> &'a mut RuntimeConfig {
    &mut c.runtimes.iter_mut().find(|(k, _)| k.0 == id).expect("runtime").1
}

fn env(pairs: &[(&str, &str)]) -> Vec<(String, String)> {
    pairs.iter().map(|(k, v)| (k.to_string(), v.to_string())).collect()
}

#[test]
fn accepts_example_config() {
    let config = example_config();
    let diagnostics = validate_config(&config);
    assert_eq!(diagnostics, Vec::new());
}

#[test]
fn rejects_domain_roster_referencing_unknown_group() {
    let mut config = example_config();
    domain_mut(&mut config, "coding")
        .rosters
        .push(ResidencyGroupId("missing_group".to_string()));
    let diagnostics = validate_config(&config);
    assert_eq!(
        diagnostics,
        vec![ConfigDiagnostic::error(
            "domains.coding.rosters[2]",
            "unknown residency group 'missing_group'",
        )]
    );
}

#[test]
fn rejects_group_referencing_unknown_model() {
    let mut config = example_config();
    group_mut(&mut config, "small_swarm")
        .models
        .push(ModelId("missing_model".to_string()));
    let diagnostics = validate_config(&config);
    assert_eq!(
        diagnostics,
        vec![ConfigDiagnostic::error(
            "residency_groups.small_swarm.models[2]",
            "unknown model 'missing_model'",
        )]
    );
}

#[test]
fn rejects_model_referencing_unknown_runtime() {
    let mut config = example_config();
    model_mut(&mut config, "qwen9b")
        .supported_runtimes
        .push(RuntimeId("missing_runtime".to_string()));
    let diagnostics = validate_config(&config);
    assert_eq!(
        diagnostics,
        vec![ConfigDiagnostic::error(
            "models.qwen9b.supported_runtimes[1]",
            "unknown runtime 'missing_runtime'",
        )]
    );
}

#[test]
fn rejects_runtime_with_unknown_adapter() {
    let mut config = example_config();
    runtime_mut(&mut config, "mock").adapter = "mystery".to_string();
    let diagnostics = validate_config(&config);
    assert_eq!(
        diagnostics,
        vec![ConfigDiagnostic::error(
            "runtimes.mock.adapter",
            "unknown runtime adapter 'mystery'",
        )]
    );
}

#[test]
fn rejects_runtime_initial_resident_referencing_unknown_model() {
    let mut config = example_config();
    runtime_mut(&mut config, "mock")
        .initial_residents
        .push(RuntimeResidentConfig {
            model_id: ModelId("missing_model".to_string()),
            state: ResidencyState::HotGpu,
            vram_mb: None,
            ram_mb: None,
            kv_cache_mb: None,
        });
    let diagnostics = validate_config(&config);
    assert_eq!(
        diagnostics,
        vec![ConfigDiagnostic::error(
            "runtimes.mock.initial_residents[1].model_id",
            "unknown model 'missing_model'",
        )]
    );
}

#[test]
fn rejects_empty_domain_roster() {
    let mut config = example_config();
    domain_mut(&mut config, "coding").rosters.clear();
    let diagnostics = validate_config(&config);
    assert_eq!(
        diagnostics,
        vec![ConfigDiagnostic::error(
            "domains.coding.rosters",
            "domain must reference at least one residency group or set live_roster",
        )]
    );
}

#[test]
fn accepts_domain_with_live_roster_and_no_static_rosters() {
    let mut rt = runtime("llama_swap", Some("http://localhost:8085"));
    rt.auth_token = Some("LOCAL".to_string());
    let config = AnemoiConfig {
        domains: vec![(
            DomainId("coding".to_string()),
            DomainConfig {
                rosters: Vec::new(),
                live_roster: Some(RuntimeId("llama_swap".to_string())),
            },
        )],
        residency_groups: Vec::new(),
        models: Vec::new(),
        runtimes: vec![(RuntimeId("llama_swap".to_string()), rt)],
        continuity: default_continuity(),
    };
    let diagnostics = validate_config(&config);
    assert!(
        diagnostics.is_empty(),
        "live_roster domain must pass validation without static rosters: {:?}",
        diagnostics
    );
}

#[test]
fn rejects_empty_residency_group_models() {
    let mut config = example_config();
    group_mut(&mut config, "small_swarm").models.clear();
    let diagnostics = validate_config(&config);
    assert_eq!(
        diagnostics,
        vec![ConfigDiagnostic::error(
            "residency_groups.small_swarm.models",
            "residency group must reference at least one model",
        )]
    );
}

#[test]
fn reports_all_config_diagnostics_deterministically() {
    let mut config = example_config();
    domain_mut(&mut config, "coding")
        .rosters
        .push(ResidencyGroupId("missing_group".to_string()));
    group_mut(&mut config, "small_swarm")
        .models
        .push(ModelId("missing_model".to_string()));
    model_mut(&mut config, "qwen9b")
        .supported_runtimes
        .push(RuntimeId("missing_runtime".to_string()));
    runtime_mut(&mut config, "mock").adapter = "mystery".to_string();
    let first = validate_config(&config);
    let second = validate_config(&config);
    assert_eq!(first, second);
    assert_eq!(
        first,
        vec![
            ConfigDiagnostic::error(
                "domains.coding.rosters[2]",
                "unknown residency group 'missing_group'",
            ),
            ConfigDiagnostic::error(
                "models.qwen9b.supported_runtimes[1]",
                "unknown runtime 'missing_runtime'",
            ),
            ConfigDiagnostic::error(
                "residency_groups.small_swarm.models[2]",
                "unknown model 'missing_model'",
            ),
            ConfigDiagnostic::error(
                "runtimes.mock.adapter",
                "unknown runtime adapter 'mystery'",
            ),
        ]
    );
}

#[test]
fn diagnostics_do_not_depend_on_table_order() {
    let mut config = example_config();
    runtime_mut(&mut config, "mock").adapter = "mystery".to_string();
    group_mut(&mut config, "small_swarm").models.clear();
    let forward = validate_config(&config);
    config.residency_groups.reverse();
    config.models.reverse();
    let backward = validate_config(&config);
    assert_eq!(forward, backward);
    assert_eq!(forward.len(), 2);
    assert_eq!(forward[0].path, "residency_groups.small_swarm.models");
    assert_eq!(forward[1].path, "runtimes.mock.adapter");
}

#[test]
fn live_config_rejects_missing_required_runtime_url_when_no_default_exists() {
    let mut config = live_llama_swap_config();
    runtime_mut(&mut config, "llama_swap").base_url = None;
    let diagnostics = validate_config(&config);
    assert_eq!(
        diagnostics,
        vec![ConfigDiagnostic::error(
            "runtimes.llama_swap.base_url",
            "runtime adapter 'llama_swap' requires a base_url",
        )]
    );
}

#[test]
fn validate_reports_errors_as_one_message() {
    assert_eq!(example_config().validate(), Ok(()));
    let mut config = example_config();
    runtime_mut(&mut config, "mock").adapter = "mystery".to_string();
    let error = config.validate().expect_err("invalid");
    assert_eq!(error.diagnostics.len(), 1);
    assert_eq!(error.diagnostics[0].severity, DiagnosticSeverity::Error);
    assert_eq!(
        error.message(),
        "invalid Anemoi config\n- Error runtimes.mock.adapter: unknown runtime adapter 'mystery'"
    );
    let _: &ConfigValidationError = &error;
}

#[test]
fn expand_env_vars_expands_set_variable() {
    let vars = env(&[("ANEMOI_TEST_EXPAND_SET", "swift")]);
    assert_eq!(expand_env_vars("a=${ANEMOI_TEST_EXPAND_SET}", &vars), "a=swift");
    assert_eq!(expand_env_vars("a=$ANEMOI_TEST_EXPAND_SET/b", &vars), "a=swift/b");
}

#[test]
fn expand_env_vars_preserves_unset_variable_literally() {
    let vars = env(&[]);
    assert_eq!(
        expand_env_vars("t=${ANEMOI_TEST_EXPAND_MISSING}", &vars),
        "t=${ANEMOI_TEST_EXPAND_MISSING}"
    );
    assert_eq!(
        expand_env_vars("t=$ANEMOI_TEST_EXPAND_MISSING", &vars),
        "t=$ANEMOI_TEST_EXPAND_MISSING"
    );
}

#[test]
fn expand_env_vars_resolves_default_and_alternate_forms() {
    let vars = env(&[("ANEMOI_TEST_EXPAND_PRESENT", "yes")]);
    assert_eq!(
        expand_env_vars("${ANEMOI_TEST_EXPAND_PRESENT:-fallback}", &vars),
        "yes"
    );
    assert_eq!(
        expand_env_vars("${ANEMOI_TEST_EXPAND_ABSENT:-fallback}", &vars),
        "fallback"
    );
    assert_eq!(expand_env_vars("${ANEMOI_TEST_EXPAND_PRESENT:+alt}", &vars), "alt");
    assert_eq!(expand_env_vars("${ANEMOI_TEST_EXPAND_ABSENT:+alt}", &vars), "");
}

#[test]
fn expand_env_vars_treats_empty_values_as_unset_only_for_modifiers() {
    let vars = env(&[("EMPTY", "")]);
    assert_eq!(expand_env_vars("${EMPTY:-d}", &vars), "d");
    assert_eq!(expand_env_vars("${EMPTY:+a}", &vars), "");
    assert_eq!(expand_env_vars("[${EMPTY}]", &vars), "[]");
    assert_eq!(expand_env_vars("[$EMPTY]", &vars), "[]");
}

#[test]
fn expand_env_vars_is_a_single_left_to_right_pass() {
    let vars = env(&[("A", "$B"), ("B", "x"), ("N_1", "n")]);
    // An expanded value is not scanned again.
    assert_eq!(expand_env_vars("$A", &vars), "$B");
    // Bare names run over letters, digits and underscores.
    assert_eq!(expand_env_vars("$N_1-$N_1.", &vars), "n-n.");
    // A `$` that starts no reference stays, as does an unclosed brace.
    assert_eq!(expand_env_vars("cost: $5 ${B", &vars), "cost: $5 ${B");
    assert_eq!(expand_env_vars("no references", &vars), "no references");
}
