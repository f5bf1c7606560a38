//! A self-refreshing, externally filtered content cache: bounded collections
//! of feed entries, the delimited text protocol spoken with the filtering
//! service, and the decisions of the fetch, filter and clear cycles.
pub mod config;
pub mod llm_filter;
pub mod sources;
pub mod text;
pub mod types;
