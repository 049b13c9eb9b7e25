//! The Mocker-backed vLLM mock server: its configuration checks, output
//! handling and live-request bookkeeping.

pub mod server;
pub mod live;
