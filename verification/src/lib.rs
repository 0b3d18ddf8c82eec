//! Core logic of a text-selection assistant: prompt construction, model
//! configuration, streaming response handling and the `<think>` filter.

pub mod text;
pub mod think;
pub mod config;
pub mod json;
pub mod ccswitch;
pub mod actions;
pub mod llm;
pub mod fetch;
pub mod diag;
pub mod update;
pub mod selection;
pub mod gesture;
