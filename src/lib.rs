//! A voice-command assistant core: fuzzy keyphrase matching over a graph of
//! command modes, a hand-off buffer between an audio producer and a consumer,
//! and the decisions that drive one listening session.

pub mod args;
pub mod buffer;
pub mod config;
pub mod dispatch;
pub mod error;
pub mod metrics;
pub mod modes;
pub mod speech;
pub mod text;
pub mod utils;
