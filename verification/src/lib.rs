//! Rules of a web research agent.
use vstd::prelude::*;

pub mod auth;
pub mod candidates;
pub mod chunk;
pub mod cli;
pub mod clock;
pub mod config;
pub mod dashboard;
pub mod effects;
pub mod entities;
pub mod entity;
pub mod fetch;
pub mod hits;
pub mod html;
pub mod json;
pub mod links;
pub mod llm;
pub mod mcp;
pub mod numeral;
pub mod options;
pub mod order;
pub mod output;
pub mod repair;
pub mod replies;
pub mod runs;
pub mod scan;
pub mod search_cache;
pub mod spelling;
pub mod stats;
pub mod text;
pub mod tools;
pub mod types;
pub mod typesafe;
pub mod urls;
pub mod usage;

verus! {

} // verus!
