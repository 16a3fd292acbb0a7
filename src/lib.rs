//! Synthetic record generation from declarative field rules.
//!
//! Each field of a record is described by a name, a semantic type and a
//! generation rule (`increase(start,step)`, `enum(a,b,...)` or
//! `enum_file(path)`). Rules produce typed values on demand; a configuration
//! assembles one record from its fields; the engine fans the production of a
//! batch out over worker threads that share the rules.

pub mod text;
pub mod definitions;
pub mod rules;
pub mod configuration;
pub mod engine;
