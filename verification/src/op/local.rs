//! Local operations on nested values: deleting a key, deleting an item,
//! and inserting, deleting or replacing text.

use vstd::prelude::*;

verus! {

/// Deletes `key` from an object.
pub struct Delete {
    pub key: String,
}

/// Deletes the item at `index` from an array.
pub struct DeleteItem {
    pub index: usize,
}

/// Deletes `len` characters at `index` from a text.
pub struct DeleteText {
    pub index: usize,
    pub len: usize,
}

/// Inserts `text` at `index` in a text.
pub struct InsertText {
    pub index: usize,
    pub text: String,
}

/// Replaces `len` characters at `index` in a text with `text`.
pub struct ReplaceText {
    pub index: usize,
    pub len: usize,
    pub text: String,
}

impl Delete {
    /// Deletes `key`.
    pub fn new(key: String) -> (d: Delete)
        ensures
            d.key == key,
    {
        Delete { key: key }
    }
}

impl DeleteItem {
    /// Deletes the item at `index`.
    pub fn new(index: usize) -> (d: DeleteItem)
        ensures
            d.index == index,
    {
        DeleteItem { index: index }
    }
}

impl DeleteText {
    /// Deletes `len` characters at `index`.
    pub fn new(index: usize, len: usize) -> (d: DeleteText)
        ensures
            d.index == index,
            d.len == len,
    {
        DeleteText { index: index, len: len }
    }
}

impl InsertText {
    /// Inserts `text` at `index`.
    pub fn new(index: usize, text: String) -> (i: InsertText)
        ensures
            i.index == index,
            i.text == text,
    {
        InsertText { index: index, text: text }
    }
}

impl ReplaceText {
    /// Replaces `len` characters at `index` with `text`.
    pub fn new(index: usize, len: usize, text: String) -> (r: ReplaceText)
        ensures
            r.index == index,
            r.len == len,
            r.text == text,
    {
        ReplaceText { index: index, len: len, text: text }
    }
}

/// A local operation on a nested value.
pub enum LocalOp {
    Delete(Delete),
    DeleteItem(DeleteItem),
    InsertText(InsertText),
    DeleteText(DeleteText),
    ReplaceText(ReplaceText),
}

impl LocalOp {
    /// The key deletion, if this is one.
    pub fn delete(&self) -> (r: Option<&Delete>)
        ensures
            r == (match self {
                LocalOp::Delete(op) => Some(op),
                _ => None::<&Delete>,
            }),
    {
        match self {
            LocalOp::Delete(op) => Some(op),
            _ => None,
        }
    }

    /// The item deletion, if this is one.
    pub fn delete_item(&self) -> (r: Option<&DeleteItem>)
        ensures
            r == (match self {
                LocalOp::DeleteItem(op) => Some(op),
                _ => None::<&DeleteItem>,
            }),
    {
        match self {
            LocalOp::DeleteItem(op) => Some(op),
            _ => None,
        }
    }

    /// The text insertion, if this is one.
    pub fn insert_text(&self) -> (r: Option<&InsertText>)
        ensures
            r == (match self {
                LocalOp::InsertText(op) => Some(op),
                _ => None::<&InsertText>,
            }),
    {
        match self {
            LocalOp::InsertText(op) => Some(op),
            _ => None,
        }
    }

    /// The text deletion, if this is one.
    pub fn delete_text(&self) -> (r: Option<&DeleteText>)
        ensures
            r == (match self {
                LocalOp::DeleteText(op) => Some(op),
                _ => None::<&DeleteText>,
            }),
    {
        match self {
            LocalOp::DeleteText(op) => Some(op),
            _ => None,
        }
    }

    /// The text replacement, if this is one.
    pub fn replace_text(&self) -> (r: Option<&ReplaceText>)
        ensures
            r == (match self {
                LocalOp::ReplaceText(op) => Some(op),
                _ => None::<&ReplaceText>,
            }),
    {
        match self {
            LocalOp::ReplaceText(op) => Some(op),
            _ => None,
        }
    }
}

} // verus!
