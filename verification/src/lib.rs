//! A viewer core for Logseq markdown graphs: parsing, wrapping, key mapping
//! and the application state machine, with their contracts.

pub mod text;
pub mod parser;
pub mod wrap;
pub mod source;
pub mod app;
pub mod search;
pub mod filter;
pub mod action;
pub mod view_model;
pub mod edit;
