//! Identifiers that keep the elements of a replicated sequence in one
//! total order at every site.

pub mod path;
pub mod uid;
pub mod element;
pub mod text;
pub mod bits;
