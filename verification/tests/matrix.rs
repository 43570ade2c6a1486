use anemoi::ids::ModelId;
use anemoi::runtime::matrix::{
    tokenize_colocation_expr, ColocationSet, LlamaSwapMatrixConfig, MatrixToken, MatrixVar,
};
use anemoi::runtime::snapshots::{llama_swap_can_colocate, llama_swap_colocation};

fn m(id: &str) -> ModelId {
    ModelId(id.to_string())
}

fn set(name: &str, models: &str) -> ColocationSet {
    ColocationSet {
        name: name.to_string(),
        models: models.to_string(),
    }
}

fn matrix_with(sets: Vec<ColocationSet>) -> LlamaSwapMatrixConfig {
    LlamaSwapMatrixConfig {
        vars: Vec::new(),
        evict_costs: Vec::new(),
        sets,
    }
}

#[test]
fn matrix_parses_vars_evict_costs_and_sets() {
    let matrix = LlamaSwapMatrixConfig {
        vars: vec![("gpu".to_string(), MatrixVar::Uint(24576))],
        evict_costs: vec![
            ("minimax".to_string(), 90000),
            ("qwen9b".to_string(), 1),
        ],
        sets: vec![set("small_plus_medium", "qwen9b & qwen35_a3b")],
    };

    assert_eq!(matrix.numeric_var("gpu"), Some(24_576));
    assert_eq!(matrix.evict_cost("minimax"), Some(90_000));
    assert_eq!(matrix.evict_cost("qwen9b"), Some(1));
    assert_eq!(matrix.sets.len(), 1);
    assert_eq!(matrix.sets[0].name, "small_plus_medium");
    assert_eq!(matrix.sets[0].models, "qwen9b & qwen35_a3b");
}

#[test]
fn numeric_var_ignores_aliases_and_absent_names() {
    let matrix = LlamaSwapMatrixConfig {
        vars: vec![
            ("g31".to_string(), MatrixVar::String("gemma-4-31b-it".to_string())),
            ("gpu".to_string(), MatrixVar::Uint(8)),
        ],
        evict_costs: Vec::new(),
        sets: Vec::new(),
    };
    assert_eq!(matrix.numeric_var("g31"), None);
    assert_eq!(matrix.numeric_var("ram"), None);
    assert_eq!(matrix.numeric_var("gpu"), Some(8));
    assert_eq!(matrix.evict_cost("gpu"), None);
}

#[test]
fn can_colocate_true_for_models_in_shared_and_set() {
    let matrix = matrix_with(vec![set("pair", "qwen9b & qwen35_a3b")]);

    assert!(matrix.can_colocate(&m("qwen9b"), &m("qwen35_a3b")));
    assert!(matrix.can_colocate(&m("qwen35_a3b"), &m("qwen9b")));
}

#[test]
fn matrix_lowers_to_policy_facing_colocation_constraints() {
    let matrix = matrix_with(vec![
        set("pair", "qwen9b & qwen35_a3b"),
        set("solo", "minimax"),
    ]);

    // The lowered, runtime-agnostic form answers the same colocation
    // questions as the matrix itself — this is what the policy consumes off
    // the observed snapshot.
    let constraints = matrix.colocation_constraints();
    assert!(constraints.can_colocate(&m("qwen9b"), &m("qwen35_a3b")));
    assert!(!constraints.can_colocate(&m("qwen9b"), &m("minimax")));
}

#[test]
fn lowered_loadouts_are_sorted_and_deduplicated() {
    let matrix = matrix_with(vec![
        set("pair", "zeta & alpha & zeta"),
        set("either", "b | a | b"),
    ]);
    let constraints = matrix.colocation_constraints();
    assert_eq!(
        constraints.loadouts,
        vec![
            vec![m("alpha"), m("zeta")],
            vec![m("b")],
            vec![m("a")],
        ]
    );
}

#[test]
fn adapter_surfaces_no_colocation_constraints_without_matrix() {
    assert!(llama_swap_colocation(&None).is_none());
}

#[test]
fn can_colocate_false_for_models_not_in_any_set_together() {
    let matrix = matrix_with(vec![
        set("pair", "qwen9b & qwen35_a3b"),
        set("solo", "minimax"),
    ]);

    // minimax runs alone — it shares no set with the colocating pair.
    assert!(!matrix.can_colocate(&m("qwen9b"), &m("minimax")));
    assert!(!matrix.can_colocate(&m("qwen35_a3b"), &m("minimax")));
    // A model absent from every set never colocates.
    assert!(!matrix.can_colocate(&m("qwen9b"), &m("gemma")));
}

#[test]
fn or_branches_are_alternatives_not_colocated() {
    let matrix = matrix_with(vec![set("either", "qwen9b | qwen35_a3b")]);

    assert!(!matrix.can_colocate(&m("qwen9b"), &m("qwen35_a3b")));
}

#[test]
fn grouping_colocates_each_alternative_with_shared_factor() {
    let matrix = matrix_with(vec![set("grouped", "(qwen4b | qwen2b) & gemma_e2b")]);

    assert!(matrix.can_colocate(&m("qwen4b"), &m("gemma_e2b")));
    assert!(matrix.can_colocate(&m("qwen2b"), &m("gemma_e2b")));
    // The two alternatives never load together.
    assert!(!matrix.can_colocate(&m("qwen4b"), &m("qwen2b")));
}

#[test]
fn full_llama_swap_config_ignores_unrelated_keys() {
    let matrix = matrix_with(vec![set("pair", "qwen9b-co & qwen35_a3b-co")]);

    // Model ids carry the `-co` colocation suffix verbatim from the config.
    assert!(matrix.can_colocate(&m("qwen9b-co"), &m("qwen35_a3b-co")));
    assert!(!matrix.can_colocate(&m("qwen9b-co"), &m("minimax")));
}

#[test]
fn dict_format_sets_parse_like_list_format() {
    let matrix = matrix_with(vec![set("pair", "qwen9b & qwen35_a3b")]);

    assert!(matrix.can_colocate(&m("qwen9b"), &m("qwen35_a3b")));
    assert!(!matrix.can_colocate(&m("qwen9b"), &m("minimax")));
}

#[test]
fn string_var_aliases_expand_in_colocation_check() {
    let matrix = LlamaSwapMatrixConfig {
        vars: vec![
            ("q9m".to_string(), MatrixVar::String("qwen3.5-9b-mtp".to_string())),
            ("q35co".to_string(), MatrixVar::String("qwen3.6-35b-a3b-mtp-co".to_string())),
            ("ge2m".to_string(), MatrixVar::String("gemma-4-e2b-it".to_string())),
        ],
        evict_costs: Vec::new(),
        sets: vec![set("small_pair", "q9m & q35co"), set("big_pool", "q35co | ge2m")],
    };

    // Aliases expand to full model IDs for can_colocate.
    assert!(matrix.can_colocate(&m("qwen3.5-9b-mtp"), &m("qwen3.6-35b-a3b-mtp-co")));
    // | alternatives do not colocate even after alias expansion.
    assert!(!matrix.can_colocate(&m("qwen3.6-35b-a3b-mtp-co"), &m("gemma-4-e2b-it")));
    // Models not in any & set never colocate.
    assert!(!matrix.can_colocate(&m("qwen3.5-9b-mtp"), &m("gemma-4-e2b-it")));
}

#[test]
fn numeric_vars_are_not_aliases() {
    let matrix = LlamaSwapMatrixConfig {
        vars: vec![("gpu".to_string(), MatrixVar::Uint(1))],
        evict_costs: Vec::new(),
        sets: vec![set("pair", "gpu & qwen9b")],
    };
    assert!(matrix.can_colocate(&m("gpu"), &m("qwen9b")));
}

#[test]
fn malformed_operands_do_not_erase_models() {
    // A trailing `&` yields no loadout for its missing operand, which leaves
    // the other side unchanged; an unclosed group is read to its end.
    let trailing = matrix_with(vec![set("t", "qwen9b & gemma &")]);
    assert!(trailing.can_colocate(&m("qwen9b"), &m("gemma")));
    let unclosed = matrix_with(vec![set("u", "(qwen9b & gemma")]);
    assert!(unclosed.can_colocate(&m("qwen9b"), &m("gemma")));
    let garbage = matrix_with(vec![set("g", ") qwen9b & gemma")]);
    assert!(!garbage.can_colocate(&m("qwen9b"), &m("gemma")));
    assert!(garbage.colocation_constraints().loadouts.is_empty());
}

#[test]
fn tokenizer_splits_operators_and_whitespace() {
    let tokens = tokenize_colocation_expr("(a|b)&  c-d");
    assert_eq!(tokens.len(), 7);
    assert!(matches!(tokens[0], MatrixToken::Open));
    assert!(matches!(&tokens[1], MatrixToken::Ident(s) if s == "a"));
    assert!(matches!(tokens[2], MatrixToken::Or));
    assert!(matches!(&tokens[3], MatrixToken::Ident(s) if s == "b"));
    assert!(matches!(tokens[4], MatrixToken::Close));
    assert!(matches!(tokens[5], MatrixToken::And));
    assert!(matches!(&tokens[6], MatrixToken::Ident(s) if s == "c-d"));
}

#[test]
fn adapter_can_colocate_false_without_matrix() {
    assert!(!llama_swap_can_colocate(&None, &m("qwen9b"), &m("qwen35_a3b")));
}

#[test]
fn adapter_can_colocate_uses_matrix() {
    let matrix = matrix_with(vec![set("pair", "qwen9b & qwen35_a3b")]);
    let configured = Some(matrix);

    assert!(llama_swap_can_colocate(&configured, &m("qwen9b"), &m("qwen35_a3b")));
    assert!(!llama_swap_can_colocate(&configured, &m("qwen9b"), &m("minimax")));
    assert!(llama_swap_colocation(&configured).is_some());
}
