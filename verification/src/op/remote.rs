//! Operations sent between sites: the update of an attributed string,
//! and what every remote operation offers.

use crate::attributed_string::element::{elt_same, Element};
use crate::sequence::uid::{lemma_uid_order, uid_lt, uid_same, Uid};
use vstd::prelude::*;

verus! {

broadcast use vstd::seq_lib::group_to_multiset_ensures;

/// What every remote operation offers: a check that what it adds was
/// made at a site, and the operation that undoes it.
pub trait RemoteOpTrait: Sized {
    fn validate(&self, site: u32) -> bool;

    fn reverse(&self) -> Self;
}

/// An update of an attributed string: the elements it adds and those it
/// takes away.
#[derive(Debug, PartialEq)]
pub struct UpdateAttributedString {
    pub inserts: Vec<Element>,
    pub deletes: Vec<Element>,
}

/// Some element of `s` has the Uid and the text of `e`.
pub open spec fn has_element(s: Seq<Element>, e: Element) -> bool {
    exists|i: int| 0 <= i < s.len() && uid_same(&(#[trigger] s[i]).uid, &e.uid) && s[i].text@ == e.text@
}

/// The elements of `s` that no element of `other` matches in Uid and
/// text.
pub open spec fn without_elements(s: Seq<Element>, other: Seq<Element>) -> Seq<Element> {
    s.filter(|e: Element| !has_element(other, e))
}

/// The elements' Uids never go down.
pub open spec fn uid_ordered(s: Seq<Element>) -> bool {
    forall|i: int, j: int| 0 <= i < j < s.len() ==> !uid_lt(&s[j].uid, &s[i].uid)
}

/// Each element of `b` is the same as the element of `a` at its place.
pub open spec fn same_elements(a: Seq<Element>, b: Seq<Element>) -> bool {
    a.len() == b.len() && forall|i: int| 0 <= i < a.len() ==> elt_same(#[trigger] a[i], b[i])
}

/// Returns true iff some element of `v` has the Uid and text of `e`.
fn contains_element(v: &Vec<Element>, e: &Element) -> (b: bool)
    ensures
        b == has_element(v@, *e),
{
    let mut i: usize = 0;
    while i < v.len()
        invariant
            i <= v.len(),
            forall|k: int| 0 <= k < i ==> !(uid_same(&(#[trigger] v@[k]).uid, &e.uid) && v@[k].text@ == e.text@),
        decreases v.len() - i,
    {
        if v[i].uid.same(&e.uid) && v[i].text == e.text {
            return true;
        }
        i = i + 1;
    }
    false
}

/// For each element of `v`, whether some element of `other` matches it.
fn element_flags(v: &Vec<Element>, other: &Vec<Element>) -> (f: Vec<bool>)
    ensures
        f@.len() == v@.len(),
        forall|i: int| 0 <= i < v@.len() ==> f@[i] == has_element(other@, #[trigger] v@[i]),
{
    let mut f: Vec<bool> = Vec::new();
    let mut i: usize = 0;
    while i < v.len()
        invariant
            i <= v.len(),
            f@.len() == i,
            forall|k: int| 0 <= k < i ==> f@[k] == has_element(other@, #[trigger] v@[k]),
        decreases v.len() - i,
    {
        f.push(contains_element(other, &v[i]));
        i = i + 1;
    }
    f
}

/// The elements of `v` that no element of `other` matches, in order,
/// given for each element whether one does.
fn keep_unmatched(v: Vec<Element>, flags: &Vec<bool>, Ghost(other): Ghost<Seq<Element>>) -> (r: Vec<Element>)
    requires
        flags@.len() == v@.len(),
        forall|i: int| 0 <= i < v@.len() ==> flags@[i] == has_element(other, #[trigger] v@[i]),
    ensures
        r@ == without_elements(v@, other),
{
    let ghost pred = |e: Element| !has_element(other, e);
    let ghost orig = v@;
    let ghost n = orig.len();
    let mut v = v;
    assert(n == v.len());
    let mut r: Vec<Element> = Vec::new();
    let mut k: usize = 0;
    while v.len() > 0
        invariant
            n == orig.len(),
            n <= usize::MAX,
            k + v@.len() == n,
            v@ == orig.subrange(k as int, n as int),
            flags@.len() == n,
            forall|i: int| 0 <= i < n ==> flags@[i] == has_element(other, #[trigger] orig[i]),
            pred == (|e: Element| !has_element(other, e)),
            r@ == orig.subrange(0, k as int).filter(pred),
        decreases v.len(),
    {
        let e = v.remove(0);
        assert(orig[k as int] == e);
        assert(orig.subrange(0, k + 1) =~= orig.subrange(0, k as int).push(e));
        proof {
            orig.subrange(0, k as int).lemma_filter_push(e, pred);
        }
        if !flags[k] {
            r.push(e);
        }
        k = k + 1;
        assert(v@ =~= orig.subrange(k as int, n as int));
    }
    assert(orig.subrange(0, n as int) =~= orig);
    r
}

/// The elements of `v` ordered by Uid.
fn ordered_by_uid(v: Vec<Element>) -> (r: Vec<Element>)
    ensures
        r@.to_multiset() == v@.to_multiset(),
        uid_ordered(r@),
{
    let mut v = v;
    let ghost orig = v@;
    let mut r: Vec<Element> = Vec::new();
    while v.len() > 0
        invariant
            r@.to_multiset().add(v@.to_multiset()) == orig.to_multiset(),
            uid_ordered(r@),
        decreases v.len(),
    {
        let ghost before_v = v@;
        let e = v.pop().unwrap();
        assert(before_v =~= v@.push(e));
        let mut j: usize = 0;
        while j < r.len() && !e.uid.precedes(&r[j].uid)
            invariant
                j <= r.len(),
                forall|k: int| 0 <= k < j ==> !uid_lt(&e.uid, &r@[k].uid),
            decreases r.len() - j,
        {
            j = j + 1;
        }
        let ghost before_r = r@;
        r.insert(j, e);
        proof {
            assert forall|a: int, b: int| 0 <= a < b < r@.len() implies !uid_lt(&r@[b].uid, &r@[a].uid) by {
                if a < j as int && b == j as int {
                } else if a == j as int && b > a {
                    let m = b - 1;
                    assert(r@[b] == before_r[m]);
                    if uid_lt(&r@[b].uid, &e.uid) {
                        assert(j < before_r.len());
                        assert(uid_lt(&e.uid, &before_r[j as int].uid));
                        lemma_uid_order(&r@[b].uid, &e.uid, &before_r[j as int].uid);
                        if m > j {
                            assert(!uid_lt(&before_r[m].uid, &before_r[j as int].uid));
                        }
                    }
                } else {
                    let aa = if a < j { a } else { a - 1 };
                    let bb = if b < j { b } else { b - 1 };
                    assert(r@[a] == before_r[aa]);
                    assert(r@[b] == before_r[bb]);
                }
            }
        }
    }
    r
}

impl UpdateAttributedString {
    /// An update adding `inserts` and taking away `deletes`.
    pub fn new(inserts: Vec<Element>, deletes: Vec<Element>) -> (u: Self)
        ensures
            u.inserts == inserts,
            u.deletes == deletes,
    {
        UpdateAttributedString { inserts: inserts, deletes: deletes }
    }

    /// An update that does nothing.
    pub fn empty() -> (u: Self)
        ensures
            u.inserts@.len() == 0,
            u.deletes@.len() == 0,
    {
        UpdateAttributedString { inserts: Vec::new(), deletes: Vec::new() }
    }

    /// Folds `other` into this update: an element that one adds and the
    /// other takes away (the same Uid and text) cancels out, and the rest
    /// is kept, ordered by Uid.
    pub fn merge(&mut self, other: UpdateAttributedString)
        ensures
            final(self).inserts@.to_multiset() == without_elements(old(self).inserts@ + other.inserts@, old(self).deletes@ + other.deletes@).to_multiset(),
            final(self).deletes@.to_multiset() == without_elements(old(self).deletes@ + other.deletes@, old(self).inserts@ + other.inserts@).to_multiset(),
            uid_ordered(final(self).inserts@),
            uid_ordered(final(self).deletes@),
    {
        let UpdateAttributedString { inserts: mut other_inserts, deletes: mut other_deletes } = other;
        let mut inserts: Vec<Element> = Vec::new();
        let mut deletes: Vec<Element> = Vec::new();
        std::mem::swap(&mut inserts, &mut self.inserts);
        std::mem::swap(&mut deletes, &mut self.deletes);
        inserts.append(&mut other_inserts);
        deletes.append(&mut other_deletes);
        let insert_flags = element_flags(&inserts, &deletes);
        let delete_flags = element_flags(&deletes, &inserts);
        let ghost all_inserts = inserts@;
        let ghost all_deletes = deletes@;
        let kept_inserts = keep_unmatched(inserts, &insert_flags, Ghost(all_deletes));
        let kept_deletes = keep_unmatched(deletes, &delete_flags, Ghost(all_inserts));
        self.inserts = ordered_by_uid(kept_inserts);
        self.deletes = ordered_by_uid(kept_deletes);
    }
}

impl Default for UpdateAttributedString {
    /// An update that does nothing.
    fn default() -> (u: Self)
        ensures
            u.inserts@.len() == 0,
            u.deletes@.len() == 0,
    {
        UpdateAttributedString::empty()
    }
}

/// Copies of the elements of `v`, in order.
fn copy_elements(v: &Vec<Element>) -> (r: Vec<Element>)
    ensures
        same_elements(v@, r@),
{
    let mut r: Vec<Element> = Vec::new();
    let mut i: usize = 0;
    while i < v.len()
        invariant
            i <= v.len(),
            r@.len() == i,
            forall|k: int| 0 <= k < i ==> elt_same(#[trigger] v@[k], r@[k]),
        decreases v.len() - i,
    {
        r.push(v[i].clone());
        i = i + 1;
    }
    r
}

impl RemoteOpTrait for UpdateAttributedString {
    /// Returns true iff every element the update adds was made at `site`.
    fn validate(&self, site: u32) -> (b: bool)
        ensures
            b == inserts_made_at(self, site),
    {
        let mut i: usize = 0;
        while i < self.inserts.len()
            invariant
                i <= self.inserts.len(),
                forall|k: int| 0 <= k < i ==> (#[trigger] self.inserts@[k]).uid.site_id == site,
            decreases self.inserts.len() - i,
        {
            if self.inserts[i].uid.site_id != site {
                return false;
            }
            i = i + 1;
        }
        true
    }

    /// The update that undoes this one: it adds what this one takes away
    /// and takes away what this one adds.
    fn reverse(&self) -> (u: Self)
        ensures
            same_elements(self.deletes@, u.inserts@),
            same_elements(self.inserts@, u.deletes@),
    {
        UpdateAttributedString { inserts: copy_elements(&self.deletes), deletes: copy_elements(&self.inserts) }
    }
}

/// A Uid after `update_site` on an element the update adds: it takes the
/// site.
pub open spec fn with_site(u: Uid, site: u32) -> Uid {
    Uid { position: u.position, site_id: site, counter: u.counter }
}

impl UpdateAttributedString {
    /// Gives the site to every element the update adds, and to each
    /// element it takes away that has none.
    pub fn update_site(&mut self, site: u32)
        ensures
            final(self).inserts@.len() == old(self).inserts@.len(),
            final(self).deletes@.len() == old(self).deletes@.len(),
            forall|i: int| 0 <= i < final(self).inserts@.len() ==> {
                let (a, b) = (old(self).inserts@[i], #[trigger] final(self).inserts@[i]);
                b.uid == with_site(a.uid, site) && b.len == a.len && b.text == a.text
            },
            forall|i: int| 0 <= i < final(self).deletes@.len() ==> {
                let (a, b) = (old(self).deletes@[i], #[trigger] final(self).deletes@[i]);
                &&& b.uid == (if a.uid.site_id == 0 { with_site(a.uid, site) } else { a.uid })
                &&& b.len == a.len && b.text == a.text
            },
    {
        let mut i: usize = 0;
        while i < self.inserts.len()
            invariant
                i <= self.inserts.len(),
                self.inserts@.len() == old(self).inserts@.len(),
                self.deletes == old(self).deletes,
                forall|k: int| 0 <= k < i ==> {
                    let (a, b) = (old(self).inserts@[k], #[trigger] self.inserts@[k]);
                    b.uid == with_site(a.uid, site) && b.len == a.len && b.text == a.text
                },
                forall|k: int| i <= k < self.inserts@.len() ==> self.inserts@[k] == old(self).inserts@[k],
            decreases self.inserts.len() - i,
        {
            self.inserts[i].uid.site_id = site;
            i = i + 1;
        }
        let mut j: usize = 0;
        while j < self.deletes.len()
            invariant
                j <= self.deletes.len(),
                self.deletes@.len() == old(self).deletes@.len(),
                forall|k: int| 0 <= k < self.inserts@.len() ==> {
                    let (a, b) = (old(self).inserts@[k], #[trigger] self.inserts@[k]);
                    b.uid == with_site(a.uid, site) && b.len == a.len && b.text == a.text
                },
                self.inserts@.len() == old(self).inserts@.len(),
                forall|k: int| 0 <= k < j ==> {
                    let (a, b) = (old(self).deletes@[k], #[trigger] self.deletes@[k]);
                    &&& b.uid == (if a.uid.site_id == 0 { with_site(a.uid, site) } else { a.uid })
                    &&& b.len == a.len && b.text == a.text
                },
                forall|k: int| j <= k < self.deletes@.len() ==> self.deletes@[k] == old(self).deletes@[k],
            decreases self.deletes.len() - j,
        {
            if self.deletes[j].uid.site_id == 0 {
                self.deletes[j].uid.site_id = site;
            }
            j = j + 1;
        }
    }
}


/// Every element that `u` adds was made at `site`.
pub open spec fn inserts_made_at(u: &UpdateAttributedString, site: u32) -> bool {
    forall|i: int| 0 <= i < u.inserts@.len() ==> (#[trigger] u.inserts@[i]).uid.site_id == site
}

/// An operation sent between sites.
#[derive(Debug, PartialEq)]
pub enum RemoteOp {
    UpdateAttributedString(UpdateAttributedString),
}

impl RemoteOp {
    /// Returns true iff everything the operation adds was made at `site`.
    pub fn validate(&self, site: u32) -> (b: bool)
        ensures
            b == (match self {
                RemoteOp::UpdateAttributedString(op) => inserts_made_at(op, site),
            }),
    {
        match self {
            RemoteOp::UpdateAttributedString(op) => op.validate(site),
        }
    }

    /// The operation that undoes this one.
    pub fn reverse(&self) -> (r: Self)
        ensures
            match (self, r) {
                (RemoteOp::UpdateAttributedString(op), RemoteOp::UpdateAttributedString(rev)) => {
                    &&& same_elements(op.deletes@, rev.inserts@)
                    &&& same_elements(op.inserts@, rev.deletes@)
                },
            },
    {
        match self {
            RemoteOp::UpdateAttributedString(op) => RemoteOp::UpdateAttributedString(op.reverse()),
        }
    }
}

} // verus!
