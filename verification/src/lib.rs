//! A registry of user-defined text commands: a keyed store with
//! case-insensitive listing order, an ownership and permission layer,
//! bulk import, and bounded chunking of long line-oriented output.

pub mod chunk;
pub mod clock;
pub mod json;
pub mod laws;
pub mod locale;
pub mod service;
pub mod store;
pub mod text;
