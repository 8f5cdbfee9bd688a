//! Parameter binding and access-conflict checking for systems that run over a
//! shared entity-component store.
//!
//! A system declares, parameter by parameter, what it reads and writes. Each
//! declaration is kept at two granularities in the system's [`meta::SystemMeta`]:
//! over component identifiers and over storage locations, the (archetype,
//! component) pairs at which a data race can actually happen; the two agree
//! (`SystemMeta::wf`), and every registration keeps them in agreement.
//! Conflicts are decided on storage locations, so two queries that write one
//! component in disjoint archetypes are accepted; the whole-store markers of a
//! `&World` parameter are decided on component identifiers, so that they
//! exclude every other declared access.
//!
//! A conflict is a fatal configuration error. Each registration step
//! (`init_state`, `new_archetype`) therefore requires its declaration to be
//! free of conflicts, and a matching `check_init_state` or
//! `check_new_archetype` decides that beforehand, returning an
//! [`conflict::AccessConflict`] that names the system, the parameter and the
//! components involved; the caller aborts on it. A run receives its value
//! from `get_param`, and deferred mutations reach the store only through
//! `apply`, at a synchronization point.

pub mod access;
pub mod conflict;
pub mod meta;
pub mod param_set;
pub mod params;
pub mod query;
pub mod tick;
pub mod tuple;
pub mod world;
