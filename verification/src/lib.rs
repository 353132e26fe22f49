pub mod config;
pub mod text;
pub mod resp;
pub mod resp_laws;
pub mod time;
pub mod store;
pub mod cleanup;
pub mod context;
pub mod cmd;
pub mod aof;
pub mod eval;
pub mod laws;
