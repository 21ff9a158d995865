//! Identifiers of the values of an object (a string-keyed map).

pub mod uid;

pub use self::uid::UID;
