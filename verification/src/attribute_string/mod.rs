//! Formatting marks that open and close an attribute over a run of text.

pub mod attr;
