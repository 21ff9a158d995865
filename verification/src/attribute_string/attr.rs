//! The marks that open an attribute (a key with a value) and close it.

use vstd::prelude::*;

verus! {

/// Opens the attribute `key` with `value`.
#[derive(Clone, PartialEq)]
pub struct AttrOpen {
    key: String,
    value: String,
}

/// Closes the attribute `key`.
#[derive(Clone, PartialEq)]
pub struct AttrClose {
    key: String,
}

impl View for AttrOpen {
    type V = (Seq<char>, Seq<char>);

    /// The key and the value.
    closed spec fn view(&self) -> (Seq<char>, Seq<char>) {
        (self.key@, self.value@)
    }
}

impl View for AttrClose {
    type V = Seq<char>;

    /// The key.
    closed spec fn view(&self) -> Seq<char> {
        self.key@
    }
}

impl AttrOpen {
    /// Opens `key` with `value`.
    pub fn new(key: String, value: String) -> (a: Self)
        ensures
            a@ == (key@, value@),
    {
        AttrOpen { key: key, value: value }
    }
}

impl AttrClose {
    /// Closes `key`.
    pub fn new(key: String) -> (a: Self)
        ensures
            a@ == key@,
    {
        AttrClose { key: key }
    }
}

} // verus!
