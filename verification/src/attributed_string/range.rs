//! A half-open interval over the elements of an attributed string, from
//! a lower bound up to, but not including, an upper bound. A bound may
//! fall inside an element, so that the range holds part of it.

use super::element::{is_end_uid, Element};
use vstd::prelude::*;

verus! {

/// A place among the elements: an element and a character offset in it.
#[derive(Debug, PartialEq, Eq, Structural)]
pub struct Bound {
    pub index: usize,
    pub offset: usize,
}

/// The elements from `lower` up to `upper`.
#[derive(Debug)]
pub struct Range {
    pub lower: Bound,
    pub upper: Bound,
}

/// The number of characters in the first `n` elements.
pub open spec fn prefix_len(elements: Seq<Element>, n: int) -> nat
    decreases n,
{
    if n <= 0 || elements.len() < n {
        0
    } else {
        prefix_len(elements, n - 1) + elements[n - 1].len as nat
    }
}

/// Where a scan that starts at element `i`, having passed `acc`
/// characters, finds character `char_index`: the element that holds it
/// and the offset in it; the end marker, with offset 0, if it comes
/// first; the last element, with offset 0, if neither does.
pub open spec fn bound_from(elements: Seq<Element>, char_index: int, i: int, acc: int) -> (int, int)
    decreases elements.len() - i,
{
    if i < 0 || i >= elements.len() {
        (elements.len() - 1, 0)
    } else if acc + elements[i].len > char_index {
        (i, char_index - acc)
    } else if is_end_uid(elements[i].uid) {
        (i, 0)
    } else {
        bound_from(elements, char_index, i + 1, acc + elements[i].len)
    }
}

/// Prefix lengths grow with the prefix.
pub proof fn lemma_prefix_len_monotone(elements: Seq<Element>, i: int, j: int)
    requires
        0 <= i <= j <= elements.len(),
    ensures
        prefix_len(elements, i) <= prefix_len(elements, j),
    decreases j - i,
{
    if i < j {
        lemma_prefix_len_monotone(elements, i, j - 1);
    }
}

/// A scan from element `i` ends at an element from `i` on, at an
/// offset no greater than what was left to pass.
pub proof fn lemma_bound_from_range(elements: Seq<Element>, char_index: int, i: int, acc: int)
    requires
        0 <= i < elements.len(),
        acc <= char_index,
    ensures
        i <= bound_from(elements, char_index, i, acc).0 < elements.len(),
        0 <= bound_from(elements, char_index, i, acc).1 <= char_index - acc,
        bound_from(elements, char_index, i, acc).1 == 0
            || bound_from(elements, char_index, i, acc).1 < elements[bound_from(elements, char_index, i, acc).0].len,
    decreases elements.len() - i,
{
    if acc + elements[i].len > char_index {
    } else if is_end_uid(elements[i].uid) {
    } else if i + 1 < elements.len() {
        lemma_bound_from_range(elements, char_index, i + 1, acc + elements[i].len);
    }
}

/// Scans the elements from `from` for character `char_index`, counting
/// from the start of element `from`.
pub(crate) fn scan(elements: &[Element], from: usize, char_index: usize) -> (b: Bound)
    requires
        from < elements@.len(),
        prefix_len(elements@, elements@.len() as int) <= usize::MAX,
    ensures
        (b.index as int, b.offset as int) == bound_from(elements@, char_index as int, from as int, 0),
{
    let ghost elts = elements@;
    let mut index: usize = from;
    let mut current: usize = 0;
    while index < elements.len()
        invariant
            elts == elements@,
            from <= index <= elts.len(),
            from < elts.len(),
            prefix_len(elts, elts.len() as int) <= usize::MAX,
            current as int == prefix_len(elts, index as int) - prefix_len(elts, from as int),
            current <= char_index,
            bound_from(elts, char_index as int, from as int, 0) == bound_from(elts, char_index as int, index as int, current as int),
        decreases elts.len() - index,
    {
        proof {
            lemma_prefix_len_monotone(elts, from as int, index as int);
            lemma_prefix_len_monotone(elts, index + 1, elts.len() as int);
            assert(prefix_len(elts, index + 1) == prefix_len(elts, index as int) + elts[index as int].len);
        }
        let elt = &elements[index];
        if current + elt.len > char_index {
            let offset = char_index - current;
            return Bound { index: index, offset: offset };
        } else if elt.is_end_marker() {
            return Bound { index: index, offset: 0 };
        }
        current = current + elt.len;
        index = index + 1;
    }
    Bound { index: elements.len() - 1, offset: 0 }
}

impl Bound {
    /// The place of character `char_index`: the element that holds it
    /// and the offset in it; the end marker, with offset 0, if it comes
    /// first; the last element, with offset 0, if neither does.
    pub fn new(elements: &[Element], char_index: usize) -> (b: Self)
        requires
            elements@.len() > 0,
            prefix_len(elements@, elements@.len() as int) <= usize::MAX,
        ensures
            (b.index as int, b.offset as int) == bound_from(elements@, char_index as int, 0, 0),
    {
        scan(elements, 0, char_index)
    }
}

impl Range {
    /// The range of `len` characters from character `start`: its upper
    /// bound is found by scanning from the element of its lower bound.
    pub fn new(elements: &[Element], start: usize, len: usize) -> (r: Self)
        requires
            elements@.len() > 0,
            prefix_len(elements@, elements@.len() as int) <= usize::MAX,
            start + len <= usize::MAX,
        ensures
            (r.lower.index as int, r.lower.offset as int) == bound_from(elements@, start as int, 0, 0),
            (r.upper.index as int, r.upper.offset as int) == bound_from(elements@, len + r.lower.offset, r.lower.index as int, 0),
    {
        let lower = Bound::new(elements, start);
        proof {
            lemma_bound_from_range(elements@, start as int, 0, 0);
        }
        let upper = scan(elements, lower.index, len + lower.offset);
        Range { lower: lower, upper: upper }
    }
}

} // verus!
