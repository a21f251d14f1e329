//! Verified core of the Acoustics Toolbox runner: validation of the names
//! that become paths, the pipeline dependency graph and its scheduler, the
//! chunking conventions of the wire protocol, and the client-side assembly of
//! streamed results.

pub mod error;
pub mod text;
pub mod validation;
pub mod counting;
pub mod config;
pub mod pipeline;
pub mod scheduler;
pub mod status;
pub mod executor;
pub mod chunks;
pub mod strmap;
pub mod client;
pub mod assemble;
pub mod service;
pub mod session;
pub mod workspace;
pub mod sweep;
