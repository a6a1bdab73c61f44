//! The building blocks of a twin space: records, envelopes and the twin itself.

pub mod actor;
pub mod model;
pub mod msg;
pub mod registry;
pub mod reply;
pub mod twins;
