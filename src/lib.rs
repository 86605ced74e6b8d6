//! A schema registry for entity components and a decoder that turns raw
//! component payloads into typed component values.

pub mod keyed;
pub mod schema;
pub mod entity;
pub mod session;
pub mod query;
