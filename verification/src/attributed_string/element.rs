//! A run of text in an attributed string, placed by a sequence Uid.

use crate::dot::Dot;
use crate::replica::Replica;
use crate::sequence::uid::{between_position, has_room, uid_same, valid_position, Uid};
use vstd::prelude::*;

verus! {

/// A run of text with its Uid and its length in characters.
#[derive(Debug)]
pub struct Element {
    pub uid: Uid,
    pub len: usize,
    pub text: String,
}

/// Two elements with the same Uid, length and text.
pub open spec fn elt_same(a: Element, b: Element) -> bool {
    uid_same(&a.uid, &b.uid) && a.len == b.len && a.text@ == b.text@
}

/// The Uid of the start marker: the least Uid.
pub open spec fn is_start_uid(u: Uid) -> bool {
    &&& u.position@ == seq![0u64]
    &&& u.site_id == 0
    &&& u.counter == 0
}

impl Clone for Element {
    fn clone(&self) -> (e: Self)
        ensures
            elt_same(e, *self),
    {
        Element { uid: self.uid.clone(), len: self.len, text: self.text.clone() }
    }
}

impl PartialEq for Element {
    fn eq(&self, other: &Element) -> (r: bool) {
        self.uid.same(&other.uid)
    }
}

impl vstd::std_specs::cmp::PartialEqSpecImpl for Element {
    open spec fn obeys_eq_spec() -> bool {
        true
    }

    open spec fn eq_spec(&self, other: &Element) -> bool {
        uid_same(&self.uid, &other.uid)
    }
}

impl Eq for Element {}

/// The Uid of the end marker: the greatest Uid.
pub open spec fn is_end_uid(u: Uid) -> bool {
    &&& u.position@ == seq![0xf_ffffu64]
    &&& u.site_id == u32::MAX
    &&& u.counter == u32::MAX
}

impl Element {
    /// The empty element that opens every attributed string.
    pub fn start_marker() -> (e: Self)
        ensures
            is_start_uid(e.uid),
            e.len == 0,
            e.text@.len() == 0,
    {
        Self::text(String::new(), Uid::min())
    }

    /// The empty element that closes every attributed string.
    pub fn end_marker() -> (e: Self)
        ensures
            is_end_uid(e.uid),
            e.len == 0,
            e.text@.len() == 0,
    {
        Self::text(String::new(), Uid::max())
    }

    /// An element holding `text`, placed at `uid`.
    pub fn text(text: String, uid: Uid) -> (e: Self)
        ensures
            e.uid == uid,
            e.text == text,
            e.len as nat == text@.len(),
    {
        let len = text.as_str().unicode_len();
        Element { uid: uid, len: len, text: text }
    }

    /// An element holding `text`, placed between `elt1` and `elt2` and
    /// made by `replica`.
    pub fn between(elt1: &Element, elt2: &Element, text: String, replica: &Replica) -> (e: Self)
        requires
            valid_position(elt1.uid.position@),
            has_room(elt1.uid.position@, elt2.uid.position@),
        ensures
            between_position(elt1.uid.position@, elt2.uid.position@, e.uid.position@),
            e.uid.site_id == replica.site,
            e.uid.counter == replica.counter,
            e.text == text,
            e.len as nat == text@.len(),
    {
        let uid = Uid::between(&elt1.uid, &elt2.uid, Dot::new(replica.site, replica.counter));
        Self::text(text, uid)
    }

    /// Returns true iff this is the end marker.
    pub fn is_end_marker(&self) -> (b: bool)
        ensures
            b == is_end_uid(self.uid),
    {
        let max = Uid::max();
        let b = self.uid.same(&max);
        assert(b == is_end_uid(self.uid)) by {
            if b {
                assert(self.uid.position@ =~= max.position@);
            }
        }
        b
    }
}

} // verus!
