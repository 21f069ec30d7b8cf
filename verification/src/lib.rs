//! A limit order-book matching engine for a multi-asset trading venue.
//!
//! Orders are submitted against a per-symbol book; the engine enforces
//! price-time priority, produces trade executions, and maintains the
//! resting book. All prices and quantities are fixed-point integers.

pub mod asset;
pub mod book;
pub mod laws;
pub mod domain;
pub mod level;
