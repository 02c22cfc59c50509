//! Training: positions from self play, their storage and exchange.

pub mod buffer;
pub mod codec;
pub mod client;
pub mod controller;
pub mod error;
pub mod metrics;
pub mod models;
pub mod names;
pub mod optimizer;
pub mod outbox;
pub mod positions;
pub mod retry;
pub mod selfplay;
pub mod selfplay_laws;
pub mod settings;
