//! Prompt-cache metering and request compression for a relay that sits between
//! Anthropic-style clients and an upstream that reports no cache usage itself.

pub mod account_laws;
pub mod binary64;
pub mod canonical_laws;
pub mod chain_laws;
pub mod compression_laws;
pub mod compressor;
pub mod conversation;
pub mod conversation_laws;
pub mod counting_laws;
pub mod cutting_laws;
pub mod drift_laws;
pub mod identity_laws;
pub mod json;
pub mod json_laws;
pub mod json_text;
pub mod meter;
pub mod meter_laws;
pub mod plan_laws;
pub mod planning_laws;
pub mod prompt;
pub mod reading_laws;
pub mod request;
pub mod segments;
pub mod store_laws;
pub mod text;
pub mod tool_compression;
pub mod tool_laws;
pub mod truncation;
pub mod turn_laws;
pub mod usage;
pub mod usage_laws;
pub mod writing_laws;
