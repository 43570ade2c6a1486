use anemoi::ids::{ModelId, RequestId, RuntimeId};
use anemoi::runtime::events::{
    apply_model_status, parse_model_status_payload, residents_from_states, LlamaSwapModelState,
    ModelStates, SseDecoder,
};
use anemoi::runtime::snapshots::{
    add_loading_resident, bare_snapshot, configured_models_from, llama_cpp_snapshot,
    llama_swap_snapshot, mock_completion_events, mock_snapshot, ollama_snapshot,
    record_execution, remove_resident, set_resident_state, OllamaRunningModel,
};
use anemoi::runtime::util::{bytes_to_mb, normalize_model_id, RuntimeError};
use anemoi::types::{ExecutionRequest, ModelResident, ResidencyState, RuntimeMemorySnapshot};

fn resident(id: &str, state: ResidencyState) -> ModelResident {
    ModelResident {
        model_id: ModelId(id.to_string()),
        state,
        vram_mb: Some(9000),
        ram_mb: Some(12000),
        kv_cache_mb: Some(512),
        loaded_since: None,
    }
}

#[test]
fn runtime_errors_are_human_readable() {
    let unavailable = RuntimeError::Unavailable(RuntimeId("ollama".to_string()));
    let unsupported = RuntimeError::Unsupported("ollama unload");
    let url = RuntimeError::Url("relative URL without a base".to_string());

    assert_eq!(unavailable.message(), "runtime ollama is unavailable");
    assert_eq!(
        unsupported.message(),
        "runtime operation is not supported: ollama unload"
    );
    assert_eq!(
        url.message(),
        "invalid runtime url: relative URL without a base"
    );
}

#[test]
fn config_errors_name_the_llama_swap_config() {
    let config = RuntimeError::Config("bad yaml".to_string());
    assert_eq!(config.message(), "failed to load llama-swap config: bad yaml");
}

#[test]
fn normalize_model_id_strips_path_and_extension() {
    assert_eq!(
        normalize_model_id("models/qwen9b.gguf").expect("id"),
        ModelId("qwen9b".to_string())
    );
    assert_eq!(
        normalize_model_id(r"weights\granite8b.bin").expect("id"),
        ModelId("granite8b".to_string())
    );
}

#[test]
fn normalize_model_id_rejects_empty_input() {
    // A runtime reporting a model with no usable id is malformed; an empty id
    // must be rejected rather than yielding ModelId("").
    let err = normalize_model_id("").expect_err("empty id must be rejected");
    assert!(
        err.message().contains("empty model id"),
        "unexpected error: {}",
        err.message()
    );
    assert!(normalize_model_id("models/").is_err());
    assert!(normalize_model_id(r"weights\").is_err());
}

#[test]
fn normalize_model_id_error_quotes_the_raw_id() {
    let err = normalize_model_id("models/.gguf").expect_err("empty leaf");
    assert_eq!(err.message(), "invalid runtime url: empty model id (raw: \"models/.gguf\")");
}

#[test]
fn normalize_model_id_keeps_plain_ids_and_strips_only_one_extension() {
    assert_eq!(normalize_model_id("granite8b").expect("id"), ModelId("granite8b".to_string()));
    assert_eq!(normalize_model_id("a.bin.gguf").expect("id"), ModelId("a.bin".to_string()));
    assert_eq!(normalize_model_id("dir/x.tar").expect("id"), ModelId("x.tar".to_string()));
}

#[test]
fn bytes_to_mb_rounds_down() {
    assert_eq!(bytes_to_mb(0), 0);
    assert_eq!(bytes_to_mb(1_048_575), 0);
    assert_eq!(bytes_to_mb(1_048_576), 1);
    assert_eq!(bytes_to_mb(101_195_972_608), 96_508);
}

#[test]
fn llama_swap_model_state_maps_wire_strings() {
    assert_eq!(
        LlamaSwapModelState::from_wire("stopped"),
        Some(LlamaSwapModelState::Stopped)
    );
    assert_eq!(
        LlamaSwapModelState::from_wire("starting"),
        Some(LlamaSwapModelState::Starting)
    );
    assert_eq!(
        LlamaSwapModelState::from_wire("ready"),
        Some(LlamaSwapModelState::Ready)
    );
    assert_eq!(
        LlamaSwapModelState::from_wire("stopping"),
        Some(LlamaSwapModelState::Stopping)
    );
    assert_eq!(
        LlamaSwapModelState::from_wire("shutdown"),
        Some(LlamaSwapModelState::Shutdown)
    );
    assert_eq!(LlamaSwapModelState::from_wire("bogus"), None);
}

#[test]
fn llama_swap_model_state_residency_omits_unloaded() {
    assert_eq!(LlamaSwapModelState::Stopped.residency(), None);
    assert_eq!(LlamaSwapModelState::Shutdown.residency(), None);
    assert_eq!(
        LlamaSwapModelState::Starting.residency(),
        Some(ResidencyState::Loading)
    );
    assert_eq!(
        LlamaSwapModelState::Ready.residency(),
        Some(ResidencyState::HotGpu)
    );
    assert_eq!(
        LlamaSwapModelState::Stopping.residency(),
        Some(ResidencyState::Draining)
    );
}

#[test]
fn parse_model_status_payload_extracts_double_encoded_states() {
    // Captured shape: `data` is a JSON-encoded *string* of the entries.
    let payload = r#"{"type":"modelStatus","data":"[{\"id\":\"minimax\",\"state\":\"starting\"},{\"id\":\"gemma\",\"state\":\"ready\"}]"}"#;

    let parsed = parse_model_status_payload(payload).expect("modelStatus frame");

    assert_eq!(
        parsed,
        vec![
            ("minimax".to_string(), LlamaSwapModelState::Starting),
            ("gemma".to_string(), LlamaSwapModelState::Ready),
        ]
    );
}

#[test]
fn parse_model_status_payload_ignores_other_frame_types() {
    let payload = r#"{"type":"logData","data":"some log line"}"#;
    assert_eq!(parse_model_status_payload(payload), None);
}

#[test]
fn parse_model_status_payload_drops_unknown_states_and_rejects_bad_json() {
    let unknown = r#"{"type":"modelStatus","data":"[{\"id\":\"a\",\"state\":\"melting\"},{\"id\":\"b\",\"state\":\"ready\"}]"}"#;
    assert_eq!(
        parse_model_status_payload(unknown),
        Some(vec![("b".to_string(), LlamaSwapModelState::Ready)])
    );
    assert_eq!(parse_model_status_payload("not json"), None);
    let not_a_list = r#"{"type":"modelStatus","data":"{}"}"#;
    assert_eq!(parse_model_status_payload(not_a_list), None);
}

#[test]
fn sse_decoder_emits_frame_only_once_complete() {
    let event = format!(
        "data: {}\n\n",
        r#"{"type":"modelStatus","data":"[{\"id\":\"gemma\",\"state\":\"ready\"}]"}"#
    );
    let (head, tail) = event.split_at(20);
    let mut decoder = SseDecoder::default();

    assert!(
        decoder.push(head.as_bytes()).is_empty(),
        "a partial frame must not emit an update"
    );
    let updates = decoder.push(tail.as_bytes());

    assert_eq!(
        updates,
        vec![vec![("gemma".to_string(), LlamaSwapModelState::Ready)]]
    );
}

#[test]
fn sse_decoder_splits_multiple_events_in_one_chunk() {
    let chunk = format!(
        "data: {}\n\ndata: {}\n\n",
        r#"{"type":"modelStatus","data":"[{\"id\":\"a\",\"state\":\"starting\"}]"}"#,
        r#"{"type":"modelStatus","data":"[{\"id\":\"a\",\"state\":\"ready\"}]"}"#
    );
    let mut decoder = SseDecoder::default();

    let updates = decoder.push(chunk.as_bytes());

    assert_eq!(
        updates,
        vec![
            vec![("a".to_string(), LlamaSwapModelState::Starting)],
            vec![("a".to_string(), LlamaSwapModelState::Ready)],
        ]
    );
}

#[test]
fn sse_decoder_accepts_crlf_delimiters_and_skips_other_frames() {
    let chunk = format!(
        "data: {}\r\n\r\ndata: {}\n\n",
        r#"{"type":"logData","data":"hello"}"#,
        r#"{"type":"modelStatus","data":"[{\"id\":\"b\",\"state\":\"stopping\"}]"}"#
    );
    let mut decoder = SseDecoder::default();
    let updates = decoder.push(chunk.as_bytes());
    assert_eq!(
        updates,
        vec![vec![("b".to_string(), LlamaSwapModelState::Stopping)]]
    );
}

#[test]
fn residents_from_states_omits_unloaded_and_sorts() {
    let mut states = ModelStates::new();
    apply_model_status(
        &mut states,
        vec![
            ("models/qwen9b.gguf".to_string(), LlamaSwapModelState::Ready),
            ("granite8b".to_string(), LlamaSwapModelState::Starting),
            ("minimax".to_string(), LlamaSwapModelState::Stopped),
        ],
    );

    let residents = residents_from_states(&states);

    assert_eq!(residents.len(), 2, "stopped model must be omitted");
    assert_eq!(residents[0].model_id, ModelId("granite8b".to_string()));
    assert_eq!(residents[0].state, ResidencyState::Loading);
    assert_eq!(residents[1].model_id, ModelId("qwen9b".to_string()));
    assert_eq!(residents[1].state, ResidencyState::HotGpu);
}

#[test]
fn apply_model_status_replaces_previous_snapshot() {
    let mut cache = ModelStates::new();
    apply_model_status(
        &mut cache,
        vec![("gemma".to_string(), LlamaSwapModelState::Ready)],
    );
    apply_model_status(
        &mut cache,
        vec![("qwen9b".to_string(), LlamaSwapModelState::Starting)],
    );

    assert_eq!(cache.len(), 1, "full snapshot replaces, not merges");
    assert_eq!(cache.get("qwen9b"), Some(LlamaSwapModelState::Starting));
    assert!(cache.get("gemma").is_none());
}

#[test]
fn apply_model_status_keeps_the_last_state_of_a_repeated_id() {
    let mut cache = ModelStates::new();
    apply_model_status(
        &mut cache,
        vec![
            ("a".to_string(), LlamaSwapModelState::Starting),
            ("a".to_string(), LlamaSwapModelState::Ready),
        ],
    );
    assert_eq!(cache.len(), 1);
    assert_eq!(cache.get("a"), Some(LlamaSwapModelState::Ready));
}

#[test]
fn configured_models_are_normalized_and_blank_ids_skipped() {
    let models = configured_models_from(&vec![
        "models/qwen9b.gguf".to_string(),
        "models/".to_string(),
        "granite8b".to_string(),
    ]);
    assert_eq!(
        models,
        vec![
            ModelId("qwen9b".to_string()),
            ModelId("granite8b".to_string()),
        ]
    );
}

#[test]
fn failed_health_reports_unavailable_with_nothing_else() {
    let mut states = ModelStates::new();
    apply_model_status(&mut states, vec![("a".to_string(), LlamaSwapModelState::Ready)]);
    let snapshot = llama_swap_snapshot(
        RuntimeId("llama_swap".to_string()),
        false,
        &Some(vec!["a".to_string()]),
        &states,
        &None,
    );
    assert!(!snapshot.available);
    assert!(snapshot.residents.is_empty());
    assert!(snapshot.configured_models.is_empty());
    assert!(snapshot.colocation.is_none());
    assert_eq!(snapshot.runtime_id, RuntimeId("llama_swap".to_string()));
}

#[test]
fn llama_swap_snapshot_takes_residents_from_the_event_cache_only() {
    let mut states = ModelStates::new();
    apply_model_status(
        &mut states,
        vec![("models/qwen9b.gguf".to_string(), LlamaSwapModelState::Ready)],
    );
    let snapshot = llama_swap_snapshot(
        RuntimeId("llama_swap".to_string()),
        true,
        &Some(vec!["models/qwen9b.gguf".to_string(), "granite8b".to_string()]),
        &states,
        &None,
    );
    assert!(snapshot.available);
    assert_eq!(
        snapshot.configured_models,
        vec![ModelId("qwen9b".to_string()), ModelId("granite8b".to_string())]
    );
    assert_eq!(snapshot.residents.len(), 1);
    assert_eq!(snapshot.residents[0].model_id, ModelId("qwen9b".to_string()));
    assert_eq!(snapshot.residents[0].state, ResidencyState::HotGpu);
    assert_eq!(snapshot.memory, RuntimeMemorySnapshot::unknown());
    assert!(snapshot.colocation.is_none());
}

#[test]
fn llama_swap_snapshot_with_failed_listing_stays_available() {
    let states = ModelStates::new();
    let snapshot = llama_swap_snapshot(RuntimeId("ls".to_string()), true, &None, &states, &None);
    assert!(snapshot.available);
    assert!(snapshot.configured_models.is_empty());
    assert!(snapshot.residents.is_empty());
}

#[test]
fn llama_cpp_snapshot_surfaces_configured_models_without_residency() {
    let snapshot = llama_cpp_snapshot(
        RuntimeId("llama_cpp".to_string()),
        true,
        &Some(vec!["models/qwen9b.gguf".to_string()]),
    );
    assert_eq!(snapshot.runtime_id, RuntimeId("llama_cpp".to_string()));
    assert!(snapshot.available);
    assert_eq!(snapshot.configured_models, vec![ModelId("qwen9b".to_string())]);
    assert!(snapshot.residents.is_empty());
    assert_eq!(snapshot.memory, RuntimeMemorySnapshot::unknown());

    let down = llama_cpp_snapshot(RuntimeId("llama_cpp".to_string()), false, &Some(vec!["x".to_string()]));
    assert!(!down.available);
    assert!(down.configured_models.is_empty());
}

#[test]
fn ollama_running_models_are_hot_with_sizes_in_megabytes() {
    let running = vec![OllamaRunningModel {
        name: "qwen9b".to_string(),
        size_vram: Some(9000 * 1024 * 1024),
        size: Some(12000 * 1024 * 1024),
    }];
    let snapshot = ollama_snapshot(RuntimeId("ollama".to_string()), true, &running);
    assert!(snapshot.available);
    assert_eq!(snapshot.residents.len(), 1);
    assert_eq!(snapshot.residents[0].model_id, ModelId("qwen9b".to_string()));
    assert_eq!(snapshot.residents[0].state, ResidencyState::HotGpu);
    assert_eq!(snapshot.residents[0].vram_mb, Some(9000));
    assert_eq!(snapshot.residents[0].ram_mb, Some(12000));
    assert!(snapshot.configured_models.is_empty());

    let empty = ollama_snapshot(RuntimeId("ollama".to_string()), true, &vec![]);
    assert!(empty.available);
    assert!(empty.residents.is_empty());

    let down = ollama_snapshot(RuntimeId("ollama".to_string()), false, &running);
    assert!(!down.available);
    assert!(down.residents.is_empty());
}

#[test]
fn bare_snapshot_reports_only_availability() {
    let snapshot = bare_snapshot(RuntimeId("http".to_string()), true);
    assert!(snapshot.available);
    assert!(snapshot.residents.is_empty());
    assert!(snapshot.active_requests.is_empty());
    assert_eq!(snapshot.memory, RuntimeMemorySnapshot::unknown());
}

#[test]
fn mock_runtime_starts_with_configured_residents_and_loads_once() {
    let mut snapshot = mock_snapshot(
        RuntimeId("mock".to_string()),
        vec![resident("qwen9b", ResidencyState::HotGpu)],
    );
    assert!(snapshot.available);
    assert_eq!(snapshot.residents.len(), 1);

    let model = ModelId("granite8b".to_string());
    add_loading_resident(&mut snapshot, &model);
    add_loading_resident(&mut snapshot, &model);
    assert_eq!(snapshot.residents.len(), 2, "a second load adds nothing");
    assert_eq!(snapshot.residents[1].model_id, model);
    assert_eq!(snapshot.residents[1].state, ResidencyState::Loading);
    assert_eq!(snapshot.residents[1].vram_mb, None);

    add_loading_resident(&mut snapshot, &ModelId("qwen9b".to_string()));
    assert_eq!(snapshot.residents[0].state, ResidencyState::HotGpu, "a resident model is left as it is");
}

#[test]
fn mock_runtime_unload_removes_resident() {
    let mut snapshot = mock_snapshot(
        RuntimeId("mock".to_string()),
        vec![
            resident("qwen9b", ResidencyState::HotGpu),
            resident("granite8b", ResidencyState::WarmCpu),
        ],
    );
    remove_resident(&mut snapshot, &ModelId("qwen9b".to_string()));
    assert_eq!(snapshot.residents.len(), 1);
    assert_eq!(snapshot.residents[0].model_id, ModelId("granite8b".to_string()));
    remove_resident(&mut snapshot, &ModelId("absent".to_string()));
    assert_eq!(snapshot.residents.len(), 1);
}

#[test]
fn mock_runtime_sets_state_in_place_or_adds_resident() {
    let mut snapshot = mock_snapshot(
        RuntimeId("mock".to_string()),
        vec![resident("qwen9b", ResidencyState::HotGpu)],
    );
    set_resident_state(&mut snapshot, ModelId("qwen9b".to_string()), ResidencyState::Draining);
    assert_eq!(snapshot.residents.len(), 1);
    assert_eq!(snapshot.residents[0].state, ResidencyState::Draining);
    assert_eq!(snapshot.residents[0].vram_mb, Some(9000), "other fields are kept");

    set_resident_state(&mut snapshot, ModelId("gemma".to_string()), ResidencyState::WarmCpu);
    assert_eq!(snapshot.residents.len(), 2);
    assert_eq!(snapshot.residents[1].model_id, ModelId("gemma".to_string()));
    assert_eq!(snapshot.residents[1].state, ResidencyState::WarmCpu);
    assert_eq!(snapshot.residents[1].vram_mb, None);
}

#[test]
fn mock_runtime_execute_records_active_request() {
    let mut snapshot = mock_snapshot(RuntimeId("mock".to_string()), vec![]);
    let request = ExecutionRequest {
        request_id: RequestId("req-1".to_string()),
        model_id: ModelId("qwen9b".to_string()),
        prompt: Some("hello".to_string()),
    };
    record_execution(&mut snapshot, &request, 1_700_000_000_000);
    assert_eq!(snapshot.active_requests.len(), 1);
    assert_eq!(snapshot.active_requests[0].request_id, RequestId("req-1".to_string()));
    assert_eq!(snapshot.active_requests[0].model_id, ModelId("qwen9b".to_string()));
    assert_eq!(snapshot.active_requests[0].started_at, 1_700_000_000_000);
}

#[test]
fn mock_chat_completion_echoes_the_selected_model() {
    let events = mock_completion_events("qwen9b");
    assert_eq!(events.len(), 2);
    assert_eq!(
        events[0],
        "data: {\"object\":\"chat.completion.chunk\",\"model\":\"qwen9b\",\"choices\":[{\"index\":0,\"delta\":{\"role\":\"assistant\",\"content\":\"mock response from qwen9b\"}}]}\n\n"
    );
    assert_eq!(events[1], "data: [DONE]\n\n");
}

#[test]
fn sse_decoder_yields_the_same_updates_however_the_stream_is_chunked() {
    let stream = format!(
        "data: {}\r\n\r\n: comment\n\ndata: {}\n\n",
        r#"{"type":"modelStatus","data":"[{\"id\":\"a\",\"state\":\"starting\"}]"}"#,
        r#"{"type":"modelStatus","data":"[{\"id\":\"a\",\"state\":\"ready\"}]"}"#
    );
    let bytes = stream.as_bytes();
    let mut whole = SseDecoder::default();
    let expected = whole.push(bytes);
    assert_eq!(expected.len(), 2);
    for size in [1, 2, 3, 7, 19] {
        let mut decoder = SseDecoder::default();
        let mut got = Vec::new();
        for chunk in bytes.chunks(size) {
            got.extend(decoder.push(chunk));
        }
        assert_eq!(got, expected, "chunks of {size} bytes");
    }
}
