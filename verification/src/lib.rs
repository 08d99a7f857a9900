//! Core logic for a content-aggregation frontend: a collection registry that
//! parses an operator-supplied configuration string into alias -> target
//! mappings, and response-normalization helpers that wrap API payloads in a
//! uniform envelope and truncate long text bodies.

pub mod collections;
pub mod json;
pub mod text;
