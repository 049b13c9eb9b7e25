//! The vLLM-compatible mock server: its configuration, the engine settings it
//! accepts, and how a scheduler output signal becomes a token or an error.

use vstd::prelude::*;

verus! {

/// The default bound on concurrently served requests.
pub const DEFAULT_MAX_CONCURRENT_REQUESTS: usize = 256;

/// Wire-level role exposed by one mock server process.
#[derive(Clone, Copy, Debug, PartialEq, Eq, Structural)]
pub enum ServerMode {
    Aggregated,
    Prefill,
    Decode,
}

pub open spec fn mode_name(m: ServerMode) -> Seq<char> {
    match m {
        ServerMode::Aggregated => "aggregated"@,
        ServerMode::Prefill => "prefill"@,
        ServerMode::Decode => "decode"@,
    }
}

impl ServerMode {
    /// The mode's name: `aggregated`, `prefill` or `decode`.
    pub fn as_str(&self) -> (r: &'static str)
        ensures
            r@ == mode_name(*self),
    {
        match self {
            ServerMode::Aggregated => "aggregated",
            ServerMode::Prefill => "prefill",
            ServerMode::Decode => "decode",
        }
    }

    /// The mode's name as a `String`.
    pub fn name(&self) -> (r: String)
        ensures
            r@ == mode_name(*self),
    {
        String::from_str(self.as_str())
    }
}

/// Configuration of one mock server.
#[derive(Clone, Debug)]
pub struct MockerServerConfig {
    pub model: String,
    pub mode: ServerMode,
    pub seed: u64,
    pub max_concurrent_requests: usize,
}

impl Default for MockerServerConfig {
    /// Model `mocker-model`, aggregated, seed 42, up to 256 concurrent
    /// requests.
    fn default() -> (r: Self)
        ensures
            r.model@ == "mocker-model"@,
            r.mode == ServerMode::Aggregated,
            r.seed == 42,
            r.max_concurrent_requests == DEFAULT_MAX_CONCURRENT_REQUESTS,
    {
        MockerServerConfig {
            model: String::from_str("mocker-model"),
            mode: ServerMode::Aggregated,
            seed: 42,
            max_concurrent_requests: DEFAULT_MAX_CONCURRENT_REQUESTS,
        }
    }
}

/// The engine family a Mocker scheduler emulates.
#[derive(Clone, Copy, Debug, PartialEq, Eq, Structural)]
pub enum EngineKind {
    Vllm,
    Sglang,
    Other,
}

/// The role of a Mocker scheduler.
#[derive(Clone, Copy, Debug, PartialEq, Eq, Structural)]
pub enum WorkerKind {
    Aggregated,
    Prefill,
    Decode,
}

/// The Mocker engine arguments the server checks.
#[derive(Clone, Copy, Debug, PartialEq, Eq, Structural)]
pub struct EngineSettings {
    pub engine: EngineKind,
    pub dp_size: u32,
    pub worker: WorkerKind,
}

/// Why a mock server cannot be built.
#[derive(Clone, Copy, Debug, PartialEq, Eq, Structural)]
pub enum ServiceConfigError {
    /// The engine is not vLLM.
    EngineNotVllm,
    /// The engine has more than one data-parallel rank.
    MultiRank,
    /// No request may be served at once.
    NoConcurrency,
    /// The scheduler is not aggregated (the server mode gives the wire role).
    WorkerNotAggregated,
}

/// The first failing check, in order: engine family, data-parallel size,
/// concurrency bound, scheduler role.
pub open spec fn service_verdict(config: MockerServerConfig, engine: EngineSettings) -> Option<ServiceConfigError> {
    if engine.engine != EngineKind::Vllm {
        Some(ServiceConfigError::EngineNotVllm)
    } else if engine.dp_size != 1 {
        Some(ServiceConfigError::MultiRank)
    } else if config.max_concurrent_requests == 0 {
        Some(ServiceConfigError::NoConcurrency)
    } else if engine.worker != WorkerKind::Aggregated {
        Some(ServiceConfigError::WorkerNotAggregated)
    } else {
        None
    }
}

/// Checks that a server can run on these engine settings.
pub fn validate_service(config: &MockerServerConfig, engine: &EngineSettings) -> (r: Result<(), ServiceConfigError>)
    ensures
        match r {
            Ok(()) => service_verdict(*config, *engine) is None,
            Err(e) => service_verdict(*config, *engine) == Some(e),
        },
{
    if engine.engine != EngineKind::Vllm {
        return Err(ServiceConfigError::EngineNotVllm);
    }
    if engine.dp_size != 1 {
        return Err(ServiceConfigError::MultiRank);
    }
    if config.max_concurrent_requests == 0 {
        return Err(ServiceConfigError::NoConcurrency);
    }
    if engine.worker != WorkerKind::Aggregated {
        return Err(ServiceConfigError::WorkerNotAggregated);
    }
    Ok(())
}

pub open spec fn service_message(e: ServiceConfigError) -> Seq<char> {
    match e {
        ServiceConfigError::EngineNotVllm => "Mocker engine_type must be vllm"@,
        ServiceConfigError::MultiRank => "Mocker dp_size must be 1"@,
        ServiceConfigError::NoConcurrency => "max_concurrent_requests must be greater than 0"@,
        ServiceConfigError::WorkerNotAggregated => "Mocker worker_type must be aggregated; use the server mode for the emulated wire role"@,
    }
}

impl ServiceConfigError {
    /// The error's text.
    pub fn message(&self) -> (r: String)
        ensures
            r@ == service_message(*self),
    {
        match self {
            ServiceConfigError::EngineNotVllm => String::from_str("Mocker engine_type must be vllm"),
            ServiceConfigError::MultiRank => String::from_str("Mocker dp_size must be 1"),
            ServiceConfigError::NoConcurrency => String::from_str("max_concurrent_requests must be greater than 0"),
            ServiceConfigError::WorkerNotAggregated => String::from_str(
                "Mocker worker_type must be aggregated; use the server mode for the emulated wire role",
            ),
        }
    }
}

/// One scheduler output for a request.
#[derive(Clone, Copy, Debug, PartialEq, Eq, Structural)]
pub struct OutputSignal {
    pub token_id: Option<u32>,
    pub completed: bool,
    pub rejected: bool,
}

/// Why an output signal carries no token.
#[derive(Clone, Copy, Debug, PartialEq, Eq, Structural)]
pub enum TokenError {
    /// The request exceeds the simulated KV-cache capacity (resource
    /// exhausted).
    CapacityExceeded,
    /// The signal is missing its token id (internal error).
    MissingToken,
}

pub open spec fn token_message(e: TokenError) -> Seq<char> {
    match e {
        TokenError::CapacityExceeded => "request exceeds the simulated KV-cache capacity"@,
        TokenError::MissingToken => "Mocker output signal is missing a token ID"@,
    }
}

impl TokenError {
    /// The error's text.
    pub fn message(&self) -> (r: String)
        ensures
            r@ == token_message(*self),
    {
        match self {
            TokenError::CapacityExceeded => String::from_str("request exceeds the simulated KV-cache capacity"),
            TokenError::MissingToken => String::from_str("Mocker output signal is missing a token ID"),
        }
    }
}

/// The token an output signal carries, or why it carries none.
pub open spec fn token_of(signal: OutputSignal) -> Result<u32, TokenError> {
    if signal.rejected {
        Err(TokenError::CapacityExceeded)
    } else {
        match signal.token_id {
            Some(t) => Ok(t),
            None => Err(TokenError::MissingToken),
        }
    }
}

/// The token of an output signal: a rejection is a capacity error, a
/// signal without a token an internal error.
pub fn checked_token(signal: &OutputSignal) -> (r: Result<u32, TokenError>)
    ensures
        r == token_of(*signal),
{
    if signal.rejected {
        return Err(TokenError::CapacityExceeded);
    }
    match signal.token_id {
        Some(t) => Ok(t),
        None => Err(TokenError::MissingToken),
    }
}

/// Where a generation stands after one more output signal.
#[derive(Clone, Copy, Debug, PartialEq, Eq, Structural)]
pub enum GenerationStep {
    /// The token was taken; more outputs follow.
    Continue,
    /// The token was taken and it was the last one.
    Finished,
    /// The signal carries no token; the generation fails.
    Failed(TokenError),
}

/// Takes one output signal of a unary generation: its token joins `outputs`,
/// and a terminal signal finishes the generation; a signal without a token
/// fails it and adds nothing.
pub fn take_output(outputs: &mut Vec<u32>, signal: &OutputSignal) -> (r: GenerationStep)
    ensures
        match token_of(*signal) {
            Err(e) => r == GenerationStep::Failed(e) && final(outputs)@ == old(outputs)@,
            Ok(t) => final(outputs)@ == old(outputs)@.push(t) && r == if signal.completed {
                GenerationStep::Finished
            } else {
                GenerationStep::Continue
            },
        },
{
    match checked_token(signal) {
        Err(e) => GenerationStep::Failed(e),
        Ok(t) => {
            outputs.push(t);
            if signal.completed {
                GenerationStep::Finished
            } else {
                GenerationStep::Continue
            }
        },
    }
}

/// One streamed output: the token of the signal, the number of tokens
/// generated so far including it, and whether it is the last; a signal
/// without a token fails the stream.
pub fn stream_output(generated: usize, signal: &OutputSignal) -> (r: Result<(u32, usize, bool), TokenError>)
    requires
        generated < usize::MAX,
    ensures
        match token_of(*signal) {
            Err(e) => r == Err::<(u32, usize, bool), TokenError>(e),
            Ok(t) => r == Ok::<(u32, usize, bool), TokenError>((t, (generated + 1) as usize, signal.completed)),
        },
{
    match checked_token(signal) {
        Err(e) => Err(e),
        Ok(t) => Ok((t, generated + 1, signal.completed)),
    }
}

} // verus!
