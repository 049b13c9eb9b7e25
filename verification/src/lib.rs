//! Decision logic of the Dynamo serving edge: session-aware admission control,
//! inference-gateway endpoint bookkeeping, frontend route extensions and the
//! Mocker-backed vLLM server, written as verified functions over plain values.

pub mod text;
pub mod admission;
pub mod gateway;
pub mod frontend;
pub mod mocker;
