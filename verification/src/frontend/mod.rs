//! HTTP-frontend extension points: the read-only contexts handed to route
//! extensions and the checks on Python-provided routes.

pub mod context;
pub mod routes;
