//! The inference-gateway endpoint picker: peer discovery, pod discovery,
//! InferencePool parsing, worker registration and request routing decisions.

pub mod peers;
pub mod pods;
pub mod pool;
pub mod topology;
pub mod router;
pub mod reservations;
