//! Core of a distributed additive multi-party computation service.
//!
//! A fixed set of peers, each holding a private input, cooperate to compute
//! the sum of all inputs modulo a prime without revealing any single input.
//! This crate holds the verified core: field arithmetic, polynomials over a
//! prime field, secret sharing, the per-process state machine, the outbox of
//! outbound messages, and the orchestrator's planning logic. Network and
//! task plumbing live outside the library.

pub mod auth;
pub mod communication;
pub mod config;
pub mod effects;
pub mod field;
pub mod idmap;
pub mod poly;
pub mod poly_facts;
pub mod poly_theory;
pub mod primes;
pub mod orchestrator;
pub mod outbox;
pub mod peer_messages;
pub mod process;
pub mod process_repository;
pub mod reception;
pub mod reception_repository;
pub mod sharing;
