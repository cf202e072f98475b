//! Liveliness-token routing, link configuration and start-up rules of a peer-to-peer node.

pub mod decimal;
pub mod declare;
pub mod dict;
pub mod params;
pub mod pid;
pub mod runtime;
pub mod seqs;
pub mod tables;
pub mod tcp;
pub mod token;
pub mod token_effects;
pub mod token_laws;
