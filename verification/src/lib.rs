//! A small entity-component-system runtime.
//!
//! Component values live in columnar stores keyed by entity, a world owns
//! the stores and the shared resources, systems declare what they read and
//! write, and a dispatcher runs them batch by batch in an order compiled
//! from those declarations.

pub mod entity;
pub mod error;
pub mod access;
pub mod graph;
pub mod schedule;
pub mod store;
pub mod world;
pub mod dispatch;
pub mod allocator;
