use dynamo_serving::mocker::live::{ActiveRequests, AlreadyActive};
use dynamo_serving::mocker::server::{
    checked_token, stream_output, take_output, validate_service, EngineKind, EngineSettings,
    GenerationStep, MockerServerConfig, OutputSignal,
    ServerMode, ServiceConfigError, TokenError, WorkerKind, DEFAULT_MAX_CONCURRENT_REQUESTS,
};

fn engine() -> EngineSettings {
    EngineSettings { engine: EngineKind::Vllm, dp_size: 1, worker: WorkerKind::Aggregated }
}

#[test]
fn service_rejects_non_vllm_or_multi_rank_engines() {
    let sglang = EngineSettings { engine: EngineKind::Sglang, ..engine() };
    assert!(validate_service(&MockerServerConfig::default(), &sglang).err().unwrap().message().contains("engine_type"));

    let multi_rank = EngineSettings { dp_size: 2, ..engine() };
    assert!(validate_service(&MockerServerConfig::default(), &multi_rank).err().unwrap().message().contains("dp_size"));

    let disaggregated = EngineSettings { worker: WorkerKind::Prefill, ..engine() };
    assert!(validate_service(&MockerServerConfig::default(), &disaggregated)
        .err()
        .unwrap()
        .message()
        .contains("worker_type"));

    let disabled = MockerServerConfig { max_concurrent_requests: 0, ..Default::default() };
    assert!(validate_service(&disabled, &engine()).err().unwrap().message().contains("max_concurrent_requests"));
}

#[test]
fn service_accepts_a_single_rank_aggregated_vllm_engine() {
    assert_eq!(validate_service(&MockerServerConfig::default(), &engine()), Ok(()));
    let both = EngineSettings { engine: EngineKind::Other, dp_size: 4, worker: WorkerKind::Decode };
    assert_eq!(validate_service(&MockerServerConfig::default(), &both), Err(ServiceConfigError::EngineNotVllm));
}

#[test]
fn default_config_and_mode_names() {
    let config = MockerServerConfig::default();
    assert_eq!(config.model, "mocker-model");
    assert_eq!(config.mode, ServerMode::Aggregated);
    assert_eq!(config.seed, 42);
    assert_eq!(config.max_concurrent_requests, DEFAULT_MAX_CONCURRENT_REQUESTS);
    assert_eq!(ServerMode::Aggregated.as_str(), "aggregated");
    assert_eq!(ServerMode::Prefill.name(), "prefill");
    assert_eq!(ServerMode::Decode.as_str(), "decode");
}

#[test]
fn output_signals_become_tokens_or_errors() {
    let signal = OutputSignal { token_id: Some(7), completed: false, rejected: false };
    assert_eq!(checked_token(&signal), Ok(7));
    let rejected = OutputSignal { token_id: Some(7), completed: true, rejected: true };
    assert_eq!(checked_token(&rejected), Err(TokenError::CapacityExceeded));
    let missing = OutputSignal { token_id: None, completed: true, rejected: false };
    assert_eq!(checked_token(&missing), Err(TokenError::MissingToken));
}

fn token(id: u32, completed: bool) -> OutputSignal {
    OutputSignal { token_id: Some(id), completed, rejected: false }
}

#[test]
fn duplicate_request_ids_keep_the_first_stream() {
    let mut active = ActiveRequests::new();
    let (first_tx, mut first_rx) = tokio::sync::mpsc::unbounded_channel();
    let (duplicate_tx, mut duplicate_rx) = tokio::sync::mpsc::unbounded_channel();
    assert_eq!(active.register(3, first_tx), Ok(()));
    assert_eq!(active.register(3, duplicate_tx), Err(AlreadyActive { id: 3 }));
    assert_eq!(active.count(), 1);
    assert!(active.deliver(3, token(41, false)));
    assert_eq!(first_rx.try_recv().unwrap(), token(41, false));
    assert!(duplicate_rx.try_recv().is_err());
    assert!(active.cancel(3));
    assert_eq!(active.count(), 0);
    assert!(!active.cancel(3));
}

#[test]
fn terminal_outputs_release_their_stream() {
    let mut active = ActiveRequests::new();
    let (tx1, mut rx1) = tokio::sync::mpsc::unbounded_channel();
    let (tx2, mut rx2) = tokio::sync::mpsc::unbounded_channel();
    active.register(1, tx1).unwrap();
    active.register(2, tx2).unwrap();
    assert!(active.deliver(1, token(41, false)));
    assert!(active.is_active(1));
    assert!(active.deliver(1, token(42, true)));
    assert!(!active.is_active(1));
    assert!(!active.deliver(1, token(43, false)));
    assert_eq!(active.count(), 1);
    assert_eq!(rx1.try_recv().unwrap(), token(41, false));
    assert_eq!(rx1.try_recv().unwrap(), token(42, true));
    assert!(rx1.try_recv().is_err());
    assert!(rx2.try_recv().is_err());
}

#[test]
fn already_active_names_the_request_uuid() {
    assert_eq!(
        AlreadyActive { id: 3 }.message(),
        "request 00000000-0000-0000-0000-000000000003 is already active"
    );
    assert_eq!(
        AlreadyActive { id: 0x0123_4567_89ab_cdef_0123_4567_89ab_cdef }.message(),
        "request 01234567-89ab-cdef-0123-456789abcdef is already active"
    );
}

#[test]
fn unary_generation_collects_tokens_until_the_terminal_one() {
    let mut outputs = Vec::new();
    assert_eq!(take_output(&mut outputs, &token(41, false)), GenerationStep::Continue);
    assert_eq!(take_output(&mut outputs, &token(42, false)), GenerationStep::Continue);
    assert_eq!(take_output(&mut outputs, &token(43, true)), GenerationStep::Finished);
    assert_eq!(outputs, vec![41, 42, 43]);

    let rejected = OutputSignal { token_id: Some(7), completed: true, rejected: true };
    assert_eq!(take_output(&mut outputs, &rejected), GenerationStep::Failed(TokenError::CapacityExceeded));
    let missing = OutputSignal { token_id: None, completed: false, rejected: false };
    assert_eq!(take_output(&mut outputs, &missing), GenerationStep::Failed(TokenError::MissingToken));
    assert_eq!(outputs, vec![41, 42, 43]);
}

#[test]
fn streamed_outputs_count_the_generated_tokens() {
    assert_eq!(stream_output(0, &token(41, false)), Ok((41, 1, false)));
    assert_eq!(stream_output(2, &token(43, true)), Ok((43, 3, true)));
    let missing = OutputSignal { token_id: None, completed: true, rejected: false };
    assert_eq!(stream_output(2, &missing), Err(TokenError::MissingToken));
}

#[test]
fn token_errors_explain_the_failure() {
    assert_eq!(TokenError::CapacityExceeded.message(), "request exceeds the simulated KV-cache capacity");
    assert_eq!(TokenError::MissingToken.message(), "Mocker output signal is missing a token ID");
}
