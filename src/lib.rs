//! A small entity-component runtime: entities are opaque handles, components are
//! tagged values stored per component type, and queries fetch the components of
//! one known entity.

pub mod bundle;
pub mod component;
pub mod entity;
pub mod laws;
pub mod query;
pub mod storage;
pub mod world;
