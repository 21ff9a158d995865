//! The elements of a replicated sequence: each holds an item, a run of
//! text or an attribute mark, and is placed by its Uid.

use crate::attribute_string::attr::{AttrClose, AttrOpen};
use crate::sequence::uid::Uid;
use vstd::prelude::*;

verus! {

/// What a sequence element holds: nothing (the two markers), an item of
/// type `V`, a run of text, or the opening or closing of an attribute.
#[derive(Clone)]
pub enum EltValue<V> {
    Empty,
    Item(V),
    Text(String),
    AttrOpen(AttrOpen),
    AttrClose(AttrClose),
}

/// The length of a value: the UTF-8 bytes of a run of text, 0 for the
/// rest.
pub open spec fn elt_value_len<V>(v: &EltValue<V>) -> nat {
    match v {
        EltValue::Text(s) => vstd::utf8::encode_utf8(s@).len(),
        _ => 0,
    }
}

impl<V> EltValue<V> {
    /// The number of UTF-8 bytes of a run of text; 0 for anything else.
    pub fn len(&self) -> (n: usize)
        ensures
            n == elt_value_len(self) as usize,
    {
        match self {
            EltValue::Text(s) => s.as_str().len(),
            _ => 0,
        }
    }
}

/// A sequence element: its Uid and what it holds.
#[derive(Clone)]
pub struct Element<V> {
    pub uid: Uid,
    pub value: EltValue<V>,
}

impl<V> Element<V> {
    fn new(value: EltValue<V>, uid: Uid) -> (e: Self)
        ensures
            e.uid == uid,
            e.value == value,
    {
        Element { uid: uid, value: value }
    }

    /// The element that stands before all others: the least Uid, holding
    /// nothing.
    pub fn start_marker() -> (e: Self)
        ensures
            e.uid.position@ == seq![0u64],
            e.uid.site_id == 0,
            e.uid.counter == 0,
            e.value is Empty,
    {
        Self::new(EltValue::Empty, Uid::min())
    }

    /// The element that stands after all others: the greatest Uid,
    /// holding nothing.
    pub fn end_marker() -> (e: Self)
        ensures
            e.uid.position@ == seq![0xf_ffffu64],
            e.uid.site_id == u32::MAX,
            e.uid.counter == u32::MAX,
            e.value is Empty,
    {
        Self::new(EltValue::Empty, Uid::max())
    }

    /// An element holding the item `value`.
    pub fn new_item(value: V, uid: Uid) -> (e: Self)
        ensures
            e.uid == uid,
            e.value == EltValue::Item(value),
    {
        Self::new(EltValue::Item(value), uid)
    }

    /// An element holding the text `value`.
    pub fn new_text(value: String, uid: Uid) -> (e: Self)
        ensures
            e.uid == uid,
            e.value == EltValue::<V>::Text(value),
    {
        Self::new(EltValue::Text(value), uid)
    }

    /// An element that opens the attribute `key` with `value`.
    pub fn new_attr_open(key: String, value: String, uid: Uid) -> (e: Self)
        ensures
            e.uid == uid,
            match e.value {
                EltValue::AttrOpen(a) => a@ == (key@, value@),
                _ => false,
            },
    {
        let attr_open = AttrOpen::new(key, value);
        Self::new(EltValue::AttrOpen(attr_open), uid)
    }

    /// An element that closes the attribute `key`.
    pub fn new_attr_close(key: String, uid: Uid) -> (e: Self)
        ensures
            e.uid == uid,
            match e.value {
                EltValue::AttrClose(a) => a@ == key@,
                _ => false,
            },
    {
        let attr_close = AttrClose::new(key);
        Self::new(EltValue::AttrClose(attr_close), uid)
    }

    /// The item the element holds, if it holds one.
    pub fn item(&self) -> (r: Option<&V>)
        ensures
            r == (match &self.value {
                EltValue::Item(v) => Some(v),
                _ => None::<&V>,
            }),
    {
        match &self.value {
            EltValue::Item(item) => Some(item),
            _ => None,
        }
    }

    /// The text the element holds, if it holds some.
    pub fn text(&self) -> (r: Option<&str>)
        ensures
            match (&self.value, r) {
                (EltValue::Text(s), Some(t)) => t@ == s@,
                (EltValue::Text(_), None) => false,
                (_, r) => r is None,
            },
    {
        match &self.value {
            EltValue::Text(s) => Some(s.as_str()),
            _ => None,
        }
    }

    /// The attribute the element opens, if it opens one.
    pub fn attr_open(&self) -> (r: Option<&AttrOpen>)
        ensures
            r == (match &self.value {
                EltValue::AttrOpen(a) => Some(a),
                _ => None::<&AttrOpen>,
            }),
    {
        match &self.value {
            EltValue::AttrOpen(attr_open) => Some(attr_open),
            _ => None,
        }
    }

    /// The attribute the element closes, if it closes one.
    pub fn attr_close(&self) -> (r: Option<&AttrClose>)
        ensures
            r == (match &self.value {
                EltValue::AttrClose(a) => Some(a),
                _ => None::<&AttrClose>,
            }),
    {
        match &self.value {
            EltValue::AttrClose(attr_close) => Some(attr_close),
            _ => None,
        }
    }

    /// The length of what the element holds: the UTF-8 bytes of its text,
    /// 0 for anything else.
    pub fn len(&self) -> (n: usize)
        ensures
            n == elt_value_len(&self.value) as usize,
    {
        self.value.len()
    }
}

} // verus!
