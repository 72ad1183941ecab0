//! A dataset curation engine for instruction/response corpora: it ingests
//! CSV, JSON-array or JSON-lines files into a line-oriented record store,
//! filters the store by quality and duplicate predicates, samples it down to
//! a target size under one of three strategies, and exports any resulting
//! view back to CSV or JSON.

#![allow(unused_imports)]
pub mod csvfmt;
pub mod distill;
pub mod export;
pub mod filters;
pub mod ingest;
pub mod json;
pub mod models;
pub mod records;
pub mod rng;
pub mod score;
pub mod session;
pub mod sorting;
pub mod store;
pub mod text;
pub mod trusted;
pub mod view;
