//! An in-memory entity/component data store with generation-checked handles.
//!
//! The core of the crate is the [`world::World`] facade: a slot-recycling
//! [`handle::HandleAllocator`] mints entity handles, per-type component
//! columns ([`slot_vec::GenerationalVec`]) hold the data keyed by those
//! handles, and a type-indexed [`resource::ResourceMap`] carries singleton
//! shared state. Columns and resources are keyed by caller-chosen numeric
//! type identifiers, and every access is checked against the handle's
//! generation, so a stale handle can never reach data that belongs to a
//! later occupant of the same slot.
//!
//! Around the store, the crate offers a directed-graph utility
//! ([`graph::Graph`]), a pushdown state machine ([`state::StateMachine`])
//! whose lifecycle decisions are computed here while an embedding runs the
//! callbacks, and a named-channel event bus ([`bus::EventBus`]).
//!
//! Columns and resources are borrowed through plain `&`/`&mut` references,
//! so conflicting borrows of the same column are rejected at compile time
//! rather than at run time.

pub mod app;
pub mod bus;
pub mod graph;
pub mod handle;
pub mod resource;
pub mod slot_vec;
pub mod state;
pub mod world;
