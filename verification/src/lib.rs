//! Enargeia: a verified entity-resolution engine.

pub mod adapters;
pub mod audit;
pub mod auth;
pub mod block;
pub mod context;
pub mod dossier;
pub mod double;
pub mod eval;
pub mod extract;
pub mod geo;
pub mod ground;
pub mod hash;
pub mod json;
pub mod laws;
pub mod llm;
pub mod llm_enrich;
pub mod matcher;
pub mod mission;
pub mod models;
pub mod order;
pub mod resolve;
pub mod server;
pub mod table;
pub mod text;
pub mod watch;
pub mod why;
pub mod world;
