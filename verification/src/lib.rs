//! Labelling of bank transactions by a local language model: the decisions of
//! the service, free of any input or output.
#![allow(unused_imports)]

pub mod api;
pub mod config;
pub mod json;
pub mod library;
pub mod llm;
pub mod model;
pub mod pipeline;
pub mod prompt;
pub mod router;
pub mod taxonomy;
pub mod text;
