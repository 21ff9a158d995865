//! A `List` stores an ordered sequence of elements. Elements in the
//! list are immutable; each carries a sequence Uid, and the list is kept
//! in Uid order so that every site sees the same order.

use crate::dot::Dot;
use crate::error::Error;
use crate::replica::{covers, join, Replica, Tombstones};
use crate::sequence::uid::{
    between_position, has_room, position_lt, uid_lt, uid_same, valid_position, Uid,
};
use vstd::prelude::*;

verus! {

/// A value of the list and the Uid that places it.
#[derive(Debug, PartialEq)]
pub struct Element<T>(pub Uid, pub T);

/// The state of a list: its elements in order, and the tombstones of
/// the elements removed from it.
#[derive(Debug, PartialEq)]
pub struct ListValue<T> {
    pub elements: Vec<Element<T>>,
    tombstones: Tombstones,
}

/// An operation to send to other sites.
#[derive(Debug, Clone, PartialEq)]
pub enum RemoteOp<T> {
    Insert(Element<T>),
    Remove(Uid),
}

/// The effect of a remote operation on this site's list.
#[derive(Debug, Clone, PartialEq)]
pub enum LocalOp<T> {
    Insert { index: usize, value: T },
    Remove { index: usize },
}

/// A list CRDT: its state, the replica that names its next operation,
/// and the operations made while it had no site.
#[derive(Debug, Clone, PartialEq)]
pub struct List<T> {
    value: ListValue<T>,
    replica: Replica,
    awaiting_site: Vec<RemoteOp<T>>,
}

impl<T: Clone> Clone for Element<T> {
    fn clone(&self) -> (e: Self)
        ensures
            uid_same(&e.0, &self.0),
            cloned(self.1, e.1),
    {
        Element(self.0.clone(), self.1.clone())
    }
}

/// The position of the left neighbour of a new element at `index`.
pub open spec fn left_position(keys: Seq<Uid>, index: int) -> Seq<u64> {
    if index == 0 { seq![0u64] } else { keys[index - 1].position@ }
}

/// The position of the right neighbour of a new element at `index`.
pub open spec fn right_position(keys: Seq<Uid>, index: int) -> Seq<u64> {
    if index == keys.len() { seq![0xf_ffffu64] } else { keys[index].position@ }
}

/// A new element can be placed at `index`: the left neighbour's position
/// is valid and some level between the neighbours leaves room.
pub open spec fn can_place(keys: Seq<Uid>, index: int) -> bool {
    valid_position(left_position(keys, index)) && has_room(left_position(keys, index), right_position(keys, index))
}

/// The Uids of a run of elements.
pub open spec fn uids<T>(s: Seq<Element<T>>) -> Seq<Uid> {
    s.map_values(|e: Element<T>| e.0)
}

/// The Uids strictly increase.
pub open spec fn sorted(keys: Seq<Uid>) -> bool {
    forall|i: int, j: int| 0 <= i < j < keys.len() ==> uid_lt(&keys[i], &keys[j])
}

/// The result of the binary search for `x` among `keys[lo..hi]`:
/// `Ok(i)` where it meets an equal Uid, `Err(i)` where the search ends.
pub open spec fn search(keys: Seq<Uid>, x: Uid, lo: int, hi: int) -> Result<int, int>
    decreases hi - lo,
{
    if lo >= hi {
        Err(lo)
    } else {
        let mid = lo + (hi - lo) / 2;
        if uid_lt(&keys[mid], &x) {
            search(keys, x, mid + 1, hi)
        } else if uid_same(&keys[mid], &x) {
            Ok(mid)
        } else {
            search(keys, x, lo, mid)
        }
    }
}

/// The search ends inside the range it was given.
pub proof fn lemma_search_bounds(keys: Seq<Uid>, x: Uid, lo: int, hi: int)
    requires
        0 <= lo <= hi <= keys.len(),
    ensures
        match search(keys, x, lo, hi) {
            Ok(i) => lo <= i < hi,
            Err(i) => lo <= i <= hi,
        },
    decreases hi - lo,
{
    if lo < hi {
        let mid = lo + (hi - lo) / 2;
        if uid_lt(&keys[mid], &x) {
            lemma_search_bounds(keys, x, mid + 1, hi);
        } else if !uid_same(&keys[mid], &x) {
            lemma_search_bounds(keys, x, lo, mid);
        }
    }
}

/// In sorted keys the search finds `x` exactly where it stands, and
/// otherwise the place where it belongs.
pub proof fn lemma_search_sorted(keys: Seq<Uid>, x: Uid, lo: int, hi: int)
    requires
        sorted(keys),
        0 <= lo <= hi <= keys.len(),
        forall|k: int| 0 <= k < lo ==> uid_lt(&keys[k], &x),
        forall|k: int| hi <= k < keys.len() ==> uid_lt(&x, &keys[k]),
    ensures
        match search(keys, x, lo, hi) {
            Ok(i) => 0 <= i < keys.len() && uid_same(&keys[i], &x),
            Err(i) => 0 <= i <= keys.len()
                && (forall|k: int| 0 <= k < i ==> uid_lt(&keys[k], &x))
                && (forall|k: int| i <= k < keys.len() ==> uid_lt(&x, &keys[k])),
        },
    decreases hi - lo,
{
    if lo < hi {
        let mid = lo + (hi - lo) / 2;
        if uid_lt(&keys[mid], &x) {
            assert forall|k: int| 0 <= k < mid + 1 implies uid_lt(&keys[k], &x) by {
                if k < mid {
                    crate::sequence::uid::lemma_uid_order(&keys[k], &keys[mid], &x);
                }
            }
            lemma_search_sorted(keys, x, mid + 1, hi);
        } else if !uid_same(&keys[mid], &x) {
            crate::sequence::uid::lemma_uid_order(&x, &keys[mid], &keys[mid]);
            assert forall|k: int| mid <= k < keys.len() implies uid_lt(&x, &keys[k]) by {
                if mid < k && k < hi {
                    crate::sequence::uid::lemma_uid_order(&x, &keys[mid], &keys[k]);
                }
            }
            lemma_search_sorted(keys, x, lo, mid);
        }
    }
}

/// The elements that merging `s` (with tombstones `st`) and `o` (with
/// tombstones `ot`) keeps, in order: walking both in Uid order, an
/// element on both sides is kept once, and an element on one side only
/// is kept unless the other side's tombstones cover its Uid's dot.
pub open spec fn merged<T>(s: Seq<Element<T>>, o: Seq<Element<T>>, st: Map<u32, u32>, ot: Map<u32, u32>) -> Seq<Element<T>>
    decreases s.len() + o.len(),
{
    if s.len() == 0 && o.len() == 0 {
        Seq::empty()
    } else if o.len() == 0 || (s.len() > 0 && uid_lt(&s[0].0, &o[0].0)) {
        let rest = merged(s.drop_first(), o, st, ot);
        if covers(ot, s[0].0.site_id, s[0].0.counter) { rest } else { seq![s[0]] + rest }
    } else if s.len() > 0 && uid_same(&s[0].0, &o[0].0) {
        seq![s[0]] + merged(s.drop_first(), o.drop_first(), st, ot)
    } else {
        let rest = merged(s, o.drop_first(), st, ot);
        if covers(st, o[0].0.site_id, o[0].0.counter) { rest } else { seq![o[0]] + rest }
    }
}

proof fn lemma_merged_above<T>(s: Seq<Element<T>>, o: Seq<Element<T>>, st: Map<u32, u32>, ot: Map<u32, u32>, b: Uid)
    requires
        forall|k: int| 0 <= k < s.len() ==> uid_lt(&b, &(#[trigger] s[k]).0),
        forall|k: int| 0 <= k < o.len() ==> uid_lt(&b, &(#[trigger] o[k]).0),
    ensures
        forall|k: int| 0 <= k < merged(s, o, st, ot).len() ==> uid_lt(&b, &(#[trigger] merged(s, o, st, ot)[k]).0),
    decreases s.len() + o.len(),
{
    let m = merged(s, o, st, ot);
    if s.len() == 0 && o.len() == 0 {
    } else if o.len() == 0 || (s.len() > 0 && uid_lt(&s[0].0, &o[0].0)) {
        assert forall|k: int| 0 <= k < s.drop_first().len() implies uid_lt(&b, &(#[trigger] s.drop_first()[k]).0) by {
            assert(s.drop_first()[k] == s[k + 1]);
        }
        lemma_merged_above(s.drop_first(), o, st, ot, b);
        let rest = merged(s.drop_first(), o, st, ot);
        assert forall|k: int| 0 <= k < m.len() implies uid_lt(&b, &(#[trigger] m[k]).0) by {
            if !covers(ot, s[0].0.site_id, s[0].0.counter) {
                if k > 0 {
                    assert(m[k] == rest[k - 1]);
                }
            }
        }
    } else if s.len() > 0 && uid_same(&s[0].0, &o[0].0) {
        assert forall|k: int| 0 <= k < s.drop_first().len() implies uid_lt(&b, &(#[trigger] s.drop_first()[k]).0) by {
            assert(s.drop_first()[k] == s[k + 1]);
        }
        assert forall|k: int| 0 <= k < o.drop_first().len() implies uid_lt(&b, &(#[trigger] o.drop_first()[k]).0) by {
            assert(o.drop_first()[k] == o[k + 1]);
        }
        lemma_merged_above(s.drop_first(), o.drop_first(), st, ot, b);
        let rest = merged(s.drop_first(), o.drop_first(), st, ot);
        assert forall|k: int| 0 <= k < m.len() implies uid_lt(&b, &(#[trigger] m[k]).0) by {
            if k > 0 {
                assert(m[k] == rest[k - 1]);
            }
        }
    } else {
        assert forall|k: int| 0 <= k < o.drop_first().len() implies uid_lt(&b, &(#[trigger] o.drop_first()[k]).0) by {
            assert(o.drop_first()[k] == o[k + 1]);
        }
        lemma_merged_above(s, o.drop_first(), st, ot, b);
        let rest = merged(s, o.drop_first(), st, ot);
        assert forall|k: int| 0 <= k < m.len() implies uid_lt(&b, &(#[trigger] m[k]).0) by {
            if !covers(st, o[0].0.site_id, o[0].0.counter) {
                if k > 0 {
                    assert(m[k] == rest[k - 1]);
                }
            }
        }
    }
}

/// Dropping the first element keeps a sorted run sorted.
proof fn lemma_drop_first_sorted<T>(s: Seq<Element<T>>)
    requires
        s.len() > 0,
        sorted(uids(s)),
    ensures
        sorted(uids(s.drop_first())),
{
    assert forall|i: int, j: int| 0 <= i < j < uids(s.drop_first()).len() implies uid_lt(&uids(s.drop_first())[i], &uids(s.drop_first())[j]) by {
        assert(s.drop_first()[i] == s[i + 1]);
        assert(s.drop_first()[j] == s[j + 1]);
        assert(uids(s)[i + 1] == s[i + 1].0);
        assert(uids(s)[j + 1] == s[j + 1].0);
    }
}

/// Merging two sorted lists gives a sorted list.
pub proof fn lemma_merged_sorted<T>(s: Seq<Element<T>>, o: Seq<Element<T>>, st: Map<u32, u32>, ot: Map<u32, u32>)
    requires
        sorted(uids(s)),
        sorted(uids(o)),
    ensures
        sorted(uids(merged(s, o, st, ot))),
    decreases s.len() + o.len(),
{
    let m = merged(s, o, st, ot);
    if s.len() == 0 && o.len() == 0 {
        return;
    }
    if s.len() > 0 {
        lemma_drop_first_sorted(s);
    }
    if o.len() > 0 {
        lemma_drop_first_sorted(o);
    }
    if o.len() == 0 || (s.len() > 0 && uid_lt(&s[0].0, &o[0].0)) {
        let h = s[0].0;
        lemma_merged_sorted(s.drop_first(), o, st, ot);
        assert forall|k: int| 0 <= k < s.drop_first().len() implies uid_lt(&h, &(#[trigger] s.drop_first()[k]).0) by {
            assert(uids(s)[0] == h);
            assert(uids(s)[k + 1] == s.drop_first()[k].0);
        }
        assert forall|k: int| 0 <= k < o.len() implies uid_lt(&h, &(#[trigger] o[k]).0) by {
            if k > 0 {
                assert(uids(o)[0] == o[0].0);
                assert(uids(o)[k] == o[k].0);
                crate::sequence::uid::lemma_uid_order(&h, &o[0].0, &o[k].0);
            }
        }
        lemma_merged_above(s.drop_first(), o, st, ot, h);
        let rest = merged(s.drop_first(), o, st, ot);
        if !covers(ot, h.site_id, h.counter) {
            assert forall|i: int, j: int| 0 <= i < j < uids(m).len() implies uid_lt(&uids(m)[i], &uids(m)[j]) by {
                assert(m == seq![s[0]] + rest);
                if i == 0 {
                    assert(uids(m)[j] == rest[j - 1].0);
                } else {
                    assert(uids(m)[i] == uids(rest)[i - 1]);
                    assert(uids(m)[j] == uids(rest)[j - 1]);
                }
            }
        }
    } else if s.len() > 0 && uid_same(&s[0].0, &o[0].0) {
        let h = s[0].0;
        lemma_merged_sorted(s.drop_first(), o.drop_first(), st, ot);
        assert forall|k: int| 0 <= k < s.drop_first().len() implies uid_lt(&h, &(#[trigger] s.drop_first()[k]).0) by {
            assert(uids(s)[0] == h);
            assert(uids(s)[k + 1] == s.drop_first()[k].0);
        }
        assert forall|k: int| 0 <= k < o.drop_first().len() implies uid_lt(&h, &(#[trigger] o.drop_first()[k]).0) by {
            assert(uids(o)[0] == o[0].0);
            assert(uids(o)[k + 1] == o.drop_first()[k].0);
            assert(uid_lt(&o[0].0, &o.drop_first()[k].0));
            assert(o[0].0.position@ == h.position@);
        }
        lemma_merged_above(s.drop_first(), o.drop_first(), st, ot, h);
        let rest = merged(s.drop_first(), o.drop_first(), st, ot);
        assert forall|i: int, j: int| 0 <= i < j < uids(m).len() implies uid_lt(&uids(m)[i], &uids(m)[j]) by {
            assert(m == seq![s[0]] + rest);
            if i == 0 {
                assert(uids(m)[j] == rest[j - 1].0);
            } else {
                assert(uids(m)[i] == uids(rest)[i - 1]);
                assert(uids(m)[j] == uids(rest)[j - 1]);
            }
        }
    } else {
        let h = o[0].0;
        if s.len() > 0 {
            crate::sequence::uid::lemma_uid_order(&s[0].0, &h, &h);
        }
        lemma_merged_sorted(s, o.drop_first(), st, ot);
        assert forall|k: int| 0 <= k < o.drop_first().len() implies uid_lt(&h, &(#[trigger] o.drop_first()[k]).0) by {
            assert(uids(o)[0] == h);
            assert(uids(o)[k + 1] == o.drop_first()[k].0);
        }
        assert forall|k: int| 0 <= k < s.len() implies uid_lt(&h, &(#[trigger] s[k]).0) by {
            if k > 0 {
                assert(uids(s)[0] == s[0].0);
                assert(uids(s)[k] == s[k].0);
                crate::sequence::uid::lemma_uid_order(&h, &s[0].0, &s[k].0);
            }
        }
        lemma_merged_above(s, o.drop_first(), st, ot, h);
        let rest = merged(s, o.drop_first(), st, ot);
        if !covers(st, h.site_id, h.counter) {
            assert forall|i: int, j: int| 0 <= i < j < uids(m).len() implies uid_lt(&uids(m)[i], &uids(m)[j]) by {
                assert(m == seq![o[0]] + rest);
                if i == 0 {
                    assert(uids(m)[j] == rest[j - 1].0);
                } else {
                    assert(uids(m)[i] == uids(rest)[i - 1]);
                    assert(uids(m)[j] == uids(rest)[j - 1]);
                }
            }
        }
    }
}

/// Elements with the same Uid on the two sides are the same element.
pub open spec fn consistent<T>(s: Seq<Element<T>>, o: Seq<Element<T>>) -> bool {
    forall|i: int, j: int| 0 <= i < s.len() && 0 <= j < o.len() && uid_same(&s[i].0, &o[j].0) ==> s[i] == o[j]
}

/// Merging does not depend on which side merges into which: two sites
/// that merge each other's state end with the same elements, provided
/// elements with the same Uid agree.
pub proof fn lemma_merged_commutative<T>(s: Seq<Element<T>>, o: Seq<Element<T>>, st: Map<u32, u32>, ot: Map<u32, u32>)
    requires
        consistent(s, o),
    ensures
        merged(s, o, st, ot) == merged(o, s, ot, st),
    decreases s.len() + o.len(),
{
    if s.len() == 0 && o.len() == 0 {
        return;
    }
    if s.len() > 0 && o.len() > 0 {
        crate::sequence::uid::lemma_uid_order(&s[0].0, &o[0].0, &o[0].0);
    }
    if s.len() > 0 {
        assert forall|i: int, j: int| 0 <= i < s.drop_first().len() && 0 <= j < o.len() && uid_same(&s.drop_first()[i].0, &o[j].0) implies s.drop_first()[i] == o[j] by {
            assert(s.drop_first()[i] == s[i + 1]);
        }
    }
    if o.len() > 0 {
        assert forall|i: int, j: int| 0 <= i < s.len() && 0 <= j < o.drop_first().len() && uid_same(&s[i].0, &o.drop_first()[j].0) implies s[i] == o.drop_first()[j] by {
            assert(o.drop_first()[j] == o[j + 1]);
        }
    }
    if s.len() > 0 && o.len() > 0 {
        assert forall|i: int, j: int| 0 <= i < s.drop_first().len() && 0 <= j < o.drop_first().len() && uid_same(&s.drop_first()[i].0, &o.drop_first()[j].0) implies s.drop_first()[i] == o.drop_first()[j] by {
            assert(s.drop_first()[i] == s[i + 1]);
            assert(o.drop_first()[j] == o[j + 1]);
        }
    }
    if o.len() == 0 || (s.len() > 0 && uid_lt(&s[0].0, &o[0].0)) {
        lemma_merged_commutative(s.drop_first(), o, st, ot);
    } else if s.len() > 0 && uid_same(&s[0].0, &o[0].0) {
        assert(s[0] == o[0]);
        lemma_merged_commutative(s.drop_first(), o.drop_first(), st, ot);
    } else {
        lemma_merged_commutative(s, o.drop_first(), st, ot);
    }
}

/// Some element of `s` has a Uid the same as `u`.
pub open spec fn has_uid<T>(s: Seq<Element<T>>, u: Uid) -> bool {
    exists|k: int| 0 <= k < s.len() && uid_same(&(#[trigger] s[k]).0, &u)
}

/// In a sorted run, every element after the first has a greater Uid, an
/// element other than the first is among the rest, and only the first
/// has its Uid.
proof fn lemma_sorted_head<T>(s: Seq<Element<T>>)
    requires
        s.len() > 0,
        sorted(uids(s)),
    ensures
        forall|k: int| 0 < k < s.len() ==> uid_lt(&s[0].0, &(#[trigger] s[k]).0),
        forall|x: Element<T>| #[trigger] s.contains(x) && x != s[0] ==> s.drop_first().contains(x),
        forall|x: Element<T>| #[trigger] s.contains(x) && uid_same(&x.0, &s[0].0) ==> x == s[0],
        forall|x: Element<T>| #[trigger] s.drop_first().contains(x) ==> uid_lt(&s[0].0, &x.0),
{
    assert forall|k: int| 0 < k < s.len() implies uid_lt(&s[0].0, &(#[trigger] s[k]).0) by {
        assert(uids(s)[0] == s[0].0);
        assert(uids(s)[k] == s[k].0);
    }
    assert forall|x: Element<T>| #[trigger] s.contains(x) && x != s[0] implies s.drop_first().contains(x) by {
        let k = choose|k: int| 0 <= k < s.len() && s[k] == x;
        assert(s.drop_first()[k - 1] == x);
    }
    assert forall|x: Element<T>| #[trigger] s.contains(x) && uid_same(&x.0, &s[0].0) implies x == s[0] by {
        let k = choose|k: int| 0 <= k < s.len() && s[k] == x;
        if k > 0 {
            crate::sequence::uid::lemma_uid_order(&s[0].0, &s[k].0, &s[k].0);
        }
    }
    assert forall|x: Element<T>| #[trigger] s.drop_first().contains(x) implies uid_lt(&s[0].0, &x.0) by {
        let k = choose|k: int| 0 <= k < s.drop_first().len() && s.drop_first()[k] == x;
        assert(s[k + 1] == x);
    }
}

/// What merging two sorted lists keeps, element by element: only
/// elements of either side; every element whose Uid both sides hold; and
/// an element that only one side holds exactly when the other side's
/// tombstones do not cover its dot (whatever its own side's tombstones
/// say).
pub proof fn lemma_merged_members<T>(s: Seq<Element<T>>, o: Seq<Element<T>>, st: Map<u32, u32>, ot: Map<u32, u32>)
    requires
        sorted(uids(s)),
        sorted(uids(o)),
    ensures
        forall|x: Element<T>| #[trigger] merged(s, o, st, ot).contains(x) ==> s.contains(x) || o.contains(x),
        forall|x: Element<T>| #[trigger] s.contains(x) && has_uid(o, x.0) ==> merged(s, o, st, ot).contains(x),
        forall|x: Element<T>| #[trigger] s.contains(x) && !has_uid(o, x.0) ==>
            (merged(s, o, st, ot).contains(x) <==> !covers(ot, x.0.site_id, x.0.counter)),
        forall|x: Element<T>| #[trigger] o.contains(x) && !has_uid(s, x.0) ==>
            (merged(s, o, st, ot).contains(x) <==> !covers(st, x.0.site_id, x.0.counter)),
    decreases s.len() + o.len(),
{
    let m = merged(s, o, st, ot);
    if s.len() == 0 && o.len() == 0 {
        return;
    }
    if s.len() > 0 {
        lemma_drop_first_sorted(s);
        lemma_sorted_head(s);
    }
    if o.len() > 0 {
        lemma_drop_first_sorted(o);
        lemma_sorted_head(o);
    }
    if o.len() == 0 || (s.len() > 0 && uid_lt(&s[0].0, &o[0].0)) {
        let h = s[0];
        let s1 = s.drop_first();
        let rest = merged(s1, o, st, ot);
        lemma_merged_members(s1, o, st, ot);
        assert forall|k: int| 0 <= k < o.len() implies uid_lt(&h.0, &(#[trigger] o[k]).0) by {
            if k > 0 {
                crate::sequence::uid::lemma_uid_order(&h.0, &o[0].0, &o[k].0);
            }
        }
        assert forall|k: int| 0 <= k < s1.len() implies uid_lt(&h.0, &(#[trigger] s1[k]).0) by {
            assert(s1[k] == s[k + 1]);
        }
        lemma_merged_above(s1, o, st, ot, h.0);
        crate::sequence::uid::lemma_uid_order(&h.0, &h.0, &h.0);
        assert(!rest.contains(h));
        assert(!has_uid(o, h.0)) by {
            if has_uid(o, h.0) {
                let k = choose|k: int| 0 <= k < o.len() && uid_same(&(#[trigger] o[k]).0, &h.0);
                crate::sequence::uid::lemma_uid_order(&h.0, &o[k].0, &o[k].0);
            }
        }
        assert forall|x: Element<T>| #[trigger] m.contains(x) implies x == h || rest.contains(x) by {
            if !covers(ot, h.0.site_id, h.0.counter) {
                let k = choose|k: int| 0 <= k < m.len() && m[k] == x;
                if k > 0 {
                    assert(rest[k - 1] == x);
                }
            }
        }
        assert forall|x: Element<T>| #[trigger] rest.contains(x) implies m.contains(x) by {
            if !covers(ot, h.0.site_id, h.0.counter) {
                let k = choose|k: int| 0 <= k < rest.len() && rest[k] == x;
                assert(m[k + 1] == x);
            }
        }
        assert forall|x: Element<T>| #[trigger] s.contains(x) && !has_uid(o, x.0) implies
            (m.contains(x) <==> !covers(ot, x.0.site_id, x.0.counter)) by {
            if x == h {
                if !covers(ot, h.0.site_id, h.0.counter) {
                    assert(m[0] == h);
                }
            } else {
                assert(s1.contains(x));
            }
        }
        assert forall|x: Element<T>| #[trigger] s.contains(x) && has_uid(o, x.0) implies m.contains(x) by {
            assert(x != h);
            assert(s1.contains(x));
        }
        assert forall|x: Element<T>| #[trigger] o.contains(x) && !has_uid(s, x.0) implies
            (m.contains(x) <==> !covers(st, x.0.site_id, x.0.counter)) by {
            assert(x != h) by {
                if x == h {
                    assert(uid_same(&s[0].0, &x.0));
                }
            }
            assert(!has_uid(s1, x.0)) by {
                if has_uid(s1, x.0) {
                    let k = choose|k: int| 0 <= k < s1.len() && uid_same(&(#[trigger] s1[k]).0, &x.0);
                    assert(s[k + 1] == s1[k]);
                }
            }
        }
    } else if s.len() > 0 && uid_same(&s[0].0, &o[0].0) {
        let h = s[0];
        let s1 = s.drop_first();
        let o1 = o.drop_first();
        let rest = merged(s1, o1, st, ot);
        lemma_merged_members(s1, o1, st, ot);
        assert(m == seq![h] + rest);
        assert forall|x: Element<T>| #[trigger] m.contains(x) implies x == h || rest.contains(x) by {
            let k = choose|k: int| 0 <= k < m.len() && m[k] == x;
            if k > 0 {
                assert(rest[k - 1] == x);
            }
        }
        assert forall|x: Element<T>| #[trigger] rest.contains(x) implies m.contains(x) by {
            let k = choose|k: int| 0 <= k < rest.len() && rest[k] == x;
            assert(m[k + 1] == x);
        }
        assert(m[0] == h);
        assert forall|x: Element<T>| #[trigger] s.contains(x) && !has_uid(o, x.0) implies
            (m.contains(x) <==> !covers(ot, x.0.site_id, x.0.counter)) by {
            assert(x != h) by {
                if x == h {
                    assert(uid_same(&o[0].0, &x.0));
                }
            }
            assert(s1.contains(x));
            assert(!has_uid(o1, x.0)) by {
                if has_uid(o1, x.0) {
                    let k = choose|k: int| 0 <= k < o1.len() && uid_same(&(#[trigger] o1[k]).0, &x.0);
                    assert(o[k + 1] == o1[k]);
                }
            }
        }
        assert forall|x: Element<T>| #[trigger] s.contains(x) && has_uid(o, x.0) implies m.contains(x) by {
            if x != h {
                assert(s1.contains(x));
                let k = choose|k: int| 0 <= k < o.len() && uid_same(&(#[trigger] o[k]).0, &x.0);
                if k == 0 {
                    assert(uid_same(&x.0, &s[0].0));
                } else {
                    assert(o1[k - 1] == o[k]);
                }
            }
        }
        assert forall|x: Element<T>| #[trigger] o.contains(x) && !has_uid(s, x.0) implies
            (m.contains(x) <==> !covers(st, x.0.site_id, x.0.counter)) by {
            assert(x != o[0]) by {
                if x == o[0] {
                    assert(uid_same(&s[0].0, &x.0));
                }
            }
            assert(o1.contains(x));
            assert(x != h) by {
                if x == h {
                    assert(uid_same(&s[0].0, &x.0));
                }
            }
            assert(!has_uid(s1, x.0)) by {
                if has_uid(s1, x.0) {
                    let k = choose|k: int| 0 <= k < s1.len() && uid_same(&(#[trigger] s1[k]).0, &x.0);
                    assert(s[k + 1] == s1[k]);
                }
            }
        }
    } else {
        let h = o[0];
        let o1 = o.drop_first();
        let rest = merged(s, o1, st, ot);
        lemma_merged_members(s, o1, st, ot);
        if s.len() > 0 {
            crate::sequence::uid::lemma_uid_order(&s[0].0, &h.0, &h.0);
        }
        assert forall|k: int| 0 <= k < s.len() implies uid_lt(&h.0, &(#[trigger] s[k]).0) by {
            if k > 0 {
                crate::sequence::uid::lemma_uid_order(&h.0, &s[0].0, &s[k].0);
            }
        }
        assert forall|k: int| 0 <= k < o1.len() implies uid_lt(&h.0, &(#[trigger] o1[k]).0) by {
            assert(o1[k] == o[k + 1]);
        }
        lemma_merged_above(s, o1, st, ot, h.0);
        crate::sequence::uid::lemma_uid_order(&h.0, &h.0, &h.0);
        assert(!rest.contains(h));
        assert(!has_uid(s, h.0)) by {
            if has_uid(s, h.0) {
                let k = choose|k: int| 0 <= k < s.len() && uid_same(&(#[trigger] s[k]).0, &h.0);
                crate::sequence::uid::lemma_uid_order(&h.0, &s[k].0, &s[k].0);
            }
        }
        assert forall|x: Element<T>| #[trigger] m.contains(x) implies x == h || rest.contains(x) by {
            if !covers(st, h.0.site_id, h.0.counter) {
                let k = choose|k: int| 0 <= k < m.len() && m[k] == x;
                if k > 0 {
                    assert(rest[k - 1] == x);
                }
            }
        }
        assert forall|x: Element<T>| #[trigger] rest.contains(x) implies m.contains(x) by {
            if !covers(st, h.0.site_id, h.0.counter) {
                let k = choose|k: int| 0 <= k < rest.len() && rest[k] == x;
                assert(m[k + 1] == x);
            }
        }
        assert forall|x: Element<T>| #[trigger] o.contains(x) && !has_uid(s, x.0) implies
            (m.contains(x) <==> !covers(st, x.0.site_id, x.0.counter)) by {
            if x == h {
                if !covers(st, h.0.site_id, h.0.counter) {
                    assert(m[0] == h);
                }
            } else {
                assert(o1.contains(x));
            }
        }
        assert forall|x: Element<T>| #[trigger] s.contains(x) && has_uid(o, x.0) implies m.contains(x) by {
            assert(x != h) by {
                if x == h {
                    let k = choose|k: int| 0 <= k < s.len() && s[k] == x;
                    assert(uid_same(&(s[k]).0, &h.0));
                }
            }
            let k = choose|k: int| 0 <= k < o.len() && uid_same(&(#[trigger] o[k]).0, &x.0);
            if k == 0 {
                let i = choose|i: int| 0 <= i < s.len() && s[i] == x;
                assert(uid_same(&(s[i]).0, &h.0));
            } else {
                assert(o1[k - 1] == o[k]);
            }
        }
        assert forall|x: Element<T>| #[trigger] s.contains(x) && !has_uid(o, x.0) implies
            (m.contains(x) <==> !covers(ot, x.0.site_id, x.0.counter)) by {
            assert(!has_uid(o1, x.0)) by {
                if has_uid(o1, x.0) {
                    let k = choose|k: int| 0 <= k < o1.len() && uid_same(&(#[trigger] o1[k]).0, &x.0);
                    assert(o[k + 1] == o1[k]);
                }
            }
            assert(x != h) by {
                if x == h {
                    assert(uid_same(&o[0].0, &x.0));
                }
            }
        }
    }
}

/// Merging with an empty list whose tombstones are empty changes nothing.
pub proof fn lemma_merged_with_empty<T>(s: Seq<Element<T>>, st: Map<u32, u32>)
    ensures
        merged(s, Seq::<Element<T>>::empty(), st, Map::<u32, u32>::empty()) == s,
        merged(Seq::<Element<T>>::empty(), s, Map::<u32, u32>::empty(), st) == s,
    decreases s.len(),
{
    if s.len() > 0 {
        lemma_merged_with_empty(s.drop_first(), st);
        assert(seq![s[0]] + s.drop_first() =~= s);
    }
}

/// Merging a list with itself gives it back.
pub proof fn lemma_merged_self<T>(s: Seq<Element<T>>, t: Map<u32, u32>)
    ensures
        merged(s, s, t, t) == s,
    decreases s.len(),
{
    if s.len() > 0 {
        crate::sequence::uid::lemma_uid_order(&s[0].0, &s[0].0, &s[0].0);
        lemma_merged_self(s.drop_first(), t);
        assert(seq![s[0]] + s.drop_first() =~= s);
    }
}

/// Uids whose positions strictly increase, each valid, ending in a
/// non-zero level and lying strictly between the positions of
/// `Uid::min()` and `Uid::max()`: the shape that local insertions keep.
pub open spec fn well_placed(keys: Seq<Uid>) -> bool {
    &&& forall|i: int, j: int| 0 <= i < j < keys.len() ==> position_lt(keys[i].position@, keys[j].position@)
    &&& forall|i: int| 0 <= i < keys.len() ==> {
        let p = #[trigger] keys[i].position@;
        &&& valid_position(p)
        &&& p.len() > 0
        &&& p.last() != 0
        &&& position_lt(seq![0u64], p)
        &&& position_lt(p, seq![0xf_ffffu64])
    }
}

/// Well-placed Uids are sorted.
pub proof fn lemma_well_placed_sorted(keys: Seq<Uid>)
    requires
        well_placed(keys),
    ensures
        sorted(keys),
{
}

/// A local insertion keeps the Uids well placed: the new Uid lies
/// between its neighbours, so the list stays sorted.
pub proof fn lemma_place_keeps_well_placed(keys: Seq<Uid>, index: int, u: Uid)
    requires
        well_placed(keys),
        0 <= index <= keys.len(),
        has_room(left_position(keys, index), right_position(keys, index)),
        between_position(left_position(keys, index), right_position(keys, index), u.position@),
    ensures
        well_placed(keys.insert(index, u)),
        sorted(keys.insert(index, u)),
{
    let left = left_position(keys, index);
    let right = right_position(keys, index);
    let r = u.position@;
    let min = seq![0u64];
    let max = seq![0xf_ffffu64];
    assert(valid_position(min)) by {
        vstd::arithmetic::power2::lemma2_to64();
    }
    assert(valid_position(max)) by {
        vstd::arithmetic::power2::lemma2_to64();
    }
    assert(position_lt(min, max)) by {
        assert(crate::sequence::uid::agree(min, max, 0));
        assert(min[0] < max[0]);
    }
    if index > 0 {
        assert(keys[index - 1].position@ == left);
    }
    if index < keys.len() {
        assert(keys[index].position@ == right);
    }
    assert(position_lt(left, right)) by {
        if index > 0 && index < keys.len() {
        } else if index > 0 {
        } else if index < keys.len() {
        }
    }
    crate::sequence::uid::lemma_between_is_between(left, right, r);
    assert(position_lt(r, right));
    let ks = keys.insert(index, u);
    assert forall|i: int| 0 <= i < index implies position_lt(ks[i].position@, r) by {
        assert(ks[i] == keys[i]);
        if i < index - 1 {
            crate::sequence::uid::lemma_position_lt_transitive(keys[i].position@, left, r);
        }
    }
    assert forall|i: int| index < i < ks.len() implies position_lt(r, ks[i].position@) by {
        assert(ks[i] == keys[i - 1]);
        if i > index + 1 {
            crate::sequence::uid::lemma_position_lt_transitive(r, right, keys[i - 1].position@);
        }
    }
    assert(position_lt(min, r)) by {
        if index > 0 {
            crate::sequence::uid::lemma_position_lt_transitive(min, left, r);
        }
    }
    assert(position_lt(r, max)) by {
        if index < keys.len() {
            crate::sequence::uid::lemma_position_lt_transitive(r, right, max);
        }
    }
    assert forall|i: int, j: int| 0 <= i < j < ks.len() implies position_lt(ks[i].position@, ks[j].position@) by {
        if i == index {
        } else if j == index {
        } else if i < index && j > index {
            crate::sequence::uid::lemma_position_lt_transitive(ks[i].position@, r, ks[j].position@);
        } else if j < index {
            assert(ks[i] == keys[i] && ks[j] == keys[j]);
        } else {
            assert(ks[i] == keys[i - 1] && ks[j] == keys[j - 1]);
        }
    }
    assert forall|i: int| 0 <= i < ks.len() implies {
        let p = #[trigger] ks[i].position@;
        &&& valid_position(p)
        &&& p.len() > 0
        &&& p.last() != 0
        &&& position_lt(seq![0u64], p)
        &&& position_lt(p, seq![0xf_ffffu64])
    } by {
        if i < index {
            assert(ks[i] == keys[i]);
        } else if i > index {
            assert(ks[i] == keys[i - 1]);
        }
    }
}

/// Applying a remote insertion keeps sorted Uids sorted; applying the
/// same insertion again finds its Uid and changes nothing.
pub proof fn lemma_remote_insert_sorted(keys: Seq<Uid>, x: Uid, y: Uid)
    requires
        sorted(keys),
        search(keys, x, 0, keys.len() as int) is Err,
        uid_same(&y, &x),
    ensures
        sorted(keys.insert(search(keys, x, 0, keys.len() as int)->Err_0, y)),
        search(keys.insert(search(keys, x, 0, keys.len() as int)->Err_0, y), x, 0, keys.len() as int + 1) is Ok,
{
    lemma_search_sorted(keys, x, 0, keys.len() as int);
    let i = search(keys, x, 0, keys.len() as int)->Err_0;
    let ks = keys.insert(i, y);
    assert forall|a: int, b: int| 0 <= a < b < ks.len() implies uid_lt(&ks[a], &ks[b]) by {
        if a < i && b == i {
            assert(uid_lt(&keys[a], &x));
        } else if a == i {
            assert(uid_lt(&x, &keys[b - 1]));
        } else if a < i && b > i {
            assert(ks[b] == keys[b - 1]);
        } else if b < i {
        } else {
            assert(ks[a] == keys[a - 1] && ks[b] == keys[b - 1]);
        }
    }
    lemma_search_sorted(ks, x, 0, ks.len() as int);
    lemma_search_bounds(ks, x, 0, ks.len() as int);
    if search(ks, x, 0, ks.len() as int) is Err {
        let j = search(ks, x, 0, ks.len() as int)->Err_0;
        if j <= i {
            assert(uid_lt(&x, &ks[i]));
        } else {
            assert(uid_lt(&ks[i], &x));
        }
        crate::sequence::uid::lemma_uid_order(&x, &x, &x);
    }
}

/// Applying a remote removal keeps sorted Uids sorted; applying the same
/// removal again finds nothing and changes nothing.
pub proof fn lemma_remote_remove_sorted(keys: Seq<Uid>, x: Uid)
    requires
        sorted(keys),
        search(keys, x, 0, keys.len() as int) is Ok,
    ensures
        sorted(keys.remove(search(keys, x, 0, keys.len() as int)->Ok_0)),
        search(keys.remove(search(keys, x, 0, keys.len() as int)->Ok_0), x, 0, keys.len() - 1) is Err,
{
    lemma_search_sorted(keys, x, 0, keys.len() as int);
    let i = search(keys, x, 0, keys.len() as int)->Ok_0;
    let ks = keys.remove(i);
    assert forall|a: int, b: int| 0 <= a < b < ks.len() implies uid_lt(&ks[a], &ks[b]) by {
        if b < i {
        } else if a < i {
            assert(ks[b] == keys[b + 1]);
        } else {
            assert(ks[a] == keys[a + 1] && ks[b] == keys[b + 1]);
        }
    }
    lemma_search_sorted(ks, x, 0, ks.len() as int);
    if search(ks, x, 0, ks.len() as int) is Ok {
        let j = search(ks, x, 0, ks.len() as int)->Ok_0;
        if j < i {
            assert(uid_lt(&keys[j], &keys[i]));
        } else {
            assert(ks[j] == keys[j + 1]);
            assert(uid_lt(&keys[i], &keys[j + 1]));
        }
        crate::sequence::uid::lemma_uid_order(&keys[i], &x, &keys[i]);
        crate::sequence::uid::lemma_uid_order(&ks[j], &x, &keys[i]);
    }
}

/// Removing a Uid keeps sorted Uids sorted.
pub proof fn lemma_remove_sorted(keys: Seq<Uid>, i: int)
    requires
        sorted(keys),
        0 <= i < keys.len(),
    ensures
        sorted(keys.remove(i)),
{
    let ks = keys.remove(i);
    assert forall|a: int, b: int| 0 <= a < b < ks.len() implies uid_lt(&ks[a], &ks[b]) by {
        if b < i {
        } else if a < i {
            assert(ks[b] == keys[b + 1]);
        } else {
            assert(ks[a] == keys[a + 1] && ks[b] == keys[b + 1]);
        }
    }
}

/// `after` holds the same elements and tombstones as `before`.
pub open spec fn unchanged<T>(before: ListValue<T>, after: ListValue<T>) -> bool {
    &&& after.keys() == before.keys()
    &&& after.values() == before.values()
    &&& after.removed() == before.removed()
}

/// `after` is `before` with a new element at `index` holding `value`;
/// its Uid, which the op's element `e` carries too (with a clone of the
/// value), has the replica's site and counter and a position between the
/// neighbours' positions.
pub open spec fn inserted<T: Clone>(before: ListValue<T>, after: ListValue<T>, index: int, value: T, replica: Replica, e: Element<T>) -> bool {
    &&& after.keys() == before.keys().insert(index, after.keys()[index])
    &&& after.values() == before.values().insert(index, value)
    &&& uid_same(&e.0, &after.keys()[index])
    &&& cloned(value, e.1)
    &&& e.0.site_id == replica.site
    &&& e.0.counter == replica.counter
    &&& between_position(left_position(before.keys(), index), right_position(before.keys(), index), e.0.position@)
    &&& after.removed() == before.removed()
}

/// `after` is `before` without its element at `index`, whose Uid `u`
/// is now covered by the tombstones.
pub open spec fn removed_at<T>(before: ListValue<T>, after: ListValue<T>, index: int, u: Uid) -> bool {
    &&& uid_same(&u, &before.keys()[index])
    &&& after.keys() == before.keys().remove(index)
    &&& after.values() == before.values().remove(index)
    &&& after.removed() == crate::replica::record(before.removed(), u.site_id, u.counter)
}

/// What applying `op` from another site does to `before`, and what it
/// reports: an insertion goes where the binary search for its Uid ends
/// (nothing happens if the search meets an equal Uid); a removal takes
/// out the element the search meets (nothing happens if it meets none).
pub open spec fn remote_applied<T: Clone>(before: ListValue<T>, after: ListValue<T>, op: RemoteOp<T>, r: Option<LocalOp<T>>) -> bool {
    match op {
        RemoteOp::Insert(e) => match search(before.keys(), e.0, 0, before.keys().len() as int) {
            Ok(_) => r is None && unchanged(before, after),
            Err(i) => {
                &&& after.keys().len() == before.keys().len() + 1
                &&& after.keys() == before.keys().insert(i, after.keys()[i])
                &&& uid_same(&after.keys()[i], &e.0)
                &&& after.values().len() == before.values().len() + 1
                &&& after.values().remove(i) == before.values()
                &&& cloned(e.1, after.values()[i])
                &&& after.removed() == before.removed()
                &&& match r {
                    Some(LocalOp::Insert { index, value }) => index == i && cloned(e.1, value),
                    _ => false,
                }
            },
        },
        RemoteOp::Remove(u) => match search(before.keys(), u, 0, before.keys().len() as int) {
            Err(_) => r is None && unchanged(before, after),
            Ok(i) => {
                &&& removed_at(before, after, i, before.keys()[i])
                &&& r == Some(LocalOp::<T>::Remove { index: i as usize })
            },
        },
    }
}

/// The Uids after `add_site`: the Uid that the binary search for an
/// insertion's Uid meets takes the site; otherwise nothing changes.
pub open spec fn site_added<T>(keys: Seq<Uid>, op: RemoteOp<T>, site: u32) -> Seq<Uid> {
    match op {
        RemoteOp::Insert(e) => match search(keys, e.0, 0, keys.len() as int) {
            Ok(i) => keys.update(i, Uid { position: keys[i].position, site_id: site, counter: keys[i].counter }),
            Err(_) => keys,
        },
        RemoteOp::Remove(_) => keys,
    }
}

/// The Uids after `add_site` for each op of `ops` in turn.
pub open spec fn sites_added<T>(keys: Seq<Uid>, ops: Seq<RemoteOp<T>>, site: u32) -> Seq<Uid>
    decreases ops.len(),
{
    if ops.len() == 0 {
        keys
    } else {
        site_added(sites_added(keys, ops.drop_last(), site), ops.last(), site)
    }
}

/// An op after `RemoteOp::add_site`.
pub open spec fn op_with_site<T>(op: RemoteOp<T>, site: u32) -> RemoteOp<T> {
    match op {
        RemoteOp::Insert(e) => RemoteOp::Insert(Element(Uid { position: e.0.position, site_id: site, counter: e.0.counter }, e.1)),
        RemoteOp::Remove(u) => RemoteOp::Remove(Uid { position: u.position, site_id: if u.site_id == 0 { site } else { u.site_id }, counter: u.counter }),
    }
}

/// Reverses a vector.
fn reversed<T>(v: Vec<T>) -> (r: Vec<T>)
    ensures
        r@ == v@.reverse(),
{
    let mut v = v;
    let ghost orig = v@;
    let mut r: Vec<T> = Vec::new();
    while v.len() > 0
        invariant
            orig == v@ + r@.reverse(),
        decreases v.len(),
    {
        let ghost before_v = v@;
        let ghost before_r = r@;
        let x = v.pop().unwrap();
        r.push(x);
        assert(before_v == v@.push(x));
        assert(r@.reverse() =~= seq![x] + before_r.reverse());
        assert(orig =~= v@ + r@.reverse());
    }
    assert(r@.reverse().reverse() =~= r@);
    assert(orig =~= r@.reverse());
    assert(orig.reverse() =~= r@);
    r
}

impl<T> ListValue<T> {
    /// The elements, in list order.
    pub closed spec fn entries(&self) -> Seq<Element<T>> {
        self.elements@
    }

    /// The Uids of the elements, in list order.
    pub closed spec fn keys(&self) -> Seq<Uid> {
        uids(self.elements@)
    }

    /// The values of the elements, in list order.
    pub closed spec fn values(&self) -> Seq<T> {
        self.elements@.map_values(|e: Element<T>| e.1)
    }

    /// The tombstones of the removed elements.
    pub closed spec fn removed(&self) -> Map<u32, u32> {
        self.tombstones@
    }

    /// Constructs an empty list value.
    pub fn new() -> (v: Self)
        ensures
            v.keys().len() == 0,
            v.removed() == Map::<u32, u32>::empty(),
    {
        ListValue { elements: Vec::new(), tombstones: Tombstones::new() }
    }

    /// Inserts `value` at `index`, with a new Uid between its neighbours
    /// carrying the replica's site and counter, and returns the op that
    /// replicates the insertion. An index past the end is refused.
    pub fn insert(&mut self, index: usize, value: T, replica: &Replica) -> (r: Result<RemoteOp<T>, Error>)
        where T: Clone,
        requires
            index <= old(self).keys().len() ==> can_place(old(self).keys(), index as int),
        ensures
            index > old(self).keys().len() ==> r == Err::<RemoteOp<T>, Error>(Error::OutOfBounds) && unchanged(*old(self), *final(self)),
            index <= old(self).keys().len() ==> match r {
                Ok(RemoteOp::Insert(e)) => inserted(*old(self), *final(self), index as int, value, *replica, e),
                _ => false,
            },
    {
        let max_index = self.elements.len();
        if index > max_index {
            return Err(Error::OutOfBounds);
        }
        let min = Uid::min();
        let max = Uid::max();
        let uid = {
            let uid1 = if index == 0 { &min } else { &self.elements[index - 1].0 };
            let uid2 = if index == max_index { &max } else { &self.elements[index].0 };
            Uid::between(uid1, uid2, Dot::new(replica.site, replica.counter))
        };
        let sent = Element(uid.clone(), value.clone());
        let element = Element(uid, value);
        self.elements.insert(index, element);
        assert(self.keys() =~= old(self).keys().insert(index as int, self.keys()[index as int]));
        assert(self.values() =~= old(self).values().insert(index as int, value));
        Ok(RemoteOp::Insert(sent))
    }

    /// Removes the element at `index`, records its Uid's dot among the
    /// tombstones, and returns the op that replicates the removal. An
    /// index past the last element is refused.
    pub fn remove(&mut self, index: usize) -> (r: Result<RemoteOp<T>, Error>)
        ensures
            index >= old(self).keys().len() ==> r == Err::<RemoteOp<T>, Error>(Error::OutOfBounds) && unchanged(*old(self), *final(self)),
            index < old(self).keys().len() ==> match r {
                Ok(RemoteOp::Remove(u)) => removed_at(*old(self), *final(self), index as int, u),
                _ => false,
            },
    {
        if index >= self.elements.len() {
            return Err(Error::OutOfBounds);
        }
        let element = self.elements.remove(index);
        self.tombstones.insert(&Replica::new(element.0.site_id, element.0.counter));
        assert(self.keys() =~= old(self).keys().remove(index as int));
        assert(self.values() =~= old(self).values().remove(index as int));
        Ok(RemoteOp::Remove(element.0))
    }

    /// Merges another list's state into this one. Walking both lists in
    /// Uid order, an element on both sides is kept once, and an element
    /// on one side only is kept unless the other side's tombstones cover
    /// it; then the tombstones are merged.
    pub fn merge(&mut self, other: ListValue<T>)
        ensures
            final(self).entries() == merged(old(self).entries(), other.entries(), old(self).removed(), other.removed()),
            final(self).removed() == join(old(self).removed(), other.removed()),
    {
        let ghost s0 = self.elements@;
        let ghost o0 = other.elements@;
        let ghost st = self.tombstones@;
        let ghost ot = other.tombstones@;
        let ListValue { elements: other_elements, tombstones: other_tombstones } = other;
        let mut own: Vec<Element<T>> = Vec::new();
        std::mem::swap(&mut own, &mut self.elements);
        let mut s_rev = reversed(own);
        let mut o_rev = reversed(other_elements);
        let mut out: Vec<Element<T>> = Vec::new();
        assert(s_rev@.reverse() =~= s0);
        assert(o_rev@.reverse() =~= o0);
        while s_rev.len() > 0 || o_rev.len() > 0
            invariant
                self.tombstones@ == st,
                other_tombstones@ == ot,
                out@ + merged(s_rev@.reverse(), o_rev@.reverse(), st, ot) == merged(s0, o0, st, ot),
            decreases s_rev.len() + o_rev.len(),
        {
            let ghost sv = s_rev@.reverse();
            let ghost ov = o_rev@.reverse();
            let ghost before = out@;
            let take_own = if o_rev.len() == 0 {
                true
            } else if s_rev.len() == 0 {
                false
            } else {
                s_rev[s_rev.len() - 1].0.precedes(&o_rev[o_rev.len() - 1].0)
            };
            if take_own {
                assert(sv[0] == s_rev@[s_rev.len() - 1]);
                let element = s_rev.pop().unwrap();
                assert(s_rev@.reverse() =~= sv.drop_first());
                if !other_tombstones.contains_pair(element.0.site_id, element.0.counter) {
                    out.push(element);
                    assert(out@ + merged(s_rev@.reverse(), ov, st, ot) =~= before + merged(sv, ov, st, ot));
                } else {
                    assert(out@ + merged(s_rev@.reverse(), ov, st, ot) =~= before + merged(sv, ov, st, ot));
                }
            } else {
                assert(ov[0] == o_rev@[o_rev.len() - 1]);
                let same = s_rev.len() > 0 && s_rev[s_rev.len() - 1].0.same(&o_rev[o_rev.len() - 1].0);
                if same {
                    assert(sv[0] == s_rev@[s_rev.len() - 1]);
                    let element = s_rev.pop().unwrap();
                    let _ = o_rev.pop();
                    assert(s_rev@.reverse() =~= sv.drop_first());
                    assert(o_rev@.reverse() =~= ov.drop_first());
                    out.push(element);
                    assert(out@ + merged(s_rev@.reverse(), o_rev@.reverse(), st, ot) =~= before + merged(sv, ov, st, ot));
                } else {
                    let element = o_rev.pop().unwrap();
                    assert(o_rev@.reverse() =~= ov.drop_first());
                    if !self.tombstones.contains_pair(element.0.site_id, element.0.counter) {
                        out.push(element);
                        assert(out@ + merged(sv, o_rev@.reverse(), st, ot) =~= before + merged(sv, ov, st, ot));
                    } else {
                        assert(out@ + merged(sv, o_rev@.reverse(), st, ot) =~= before + merged(sv, ov, st, ot));
                    }
                }
            }
        }
        assert(s_rev@.reverse() =~= Seq::<Element<T>>::empty());
        assert(o_rev@.reverse() =~= Seq::<Element<T>>::empty());
        assert(out@ =~= merged(s0, o0, st, ot));
        self.elements = out;
        self.tombstones.merge(other_tombstones);
    }

    /// Gives a site to the element that a cached insertion made while the
    /// list had none; other ops change nothing.
    pub fn add_site(&mut self, op: &RemoteOp<T>, site: u32)
        ensures
            final(self).keys() == site_added(old(self).keys(), *op, site),
            final(self).values() == old(self).values(),
            final(self).removed() == old(self).removed(),
    {
        if let RemoteOp::Insert(element) = op {
            let index = match self.find_index(&element.0) {
                Ok(i) => i,
                Err(_) => return,
            };
            self.elements[index].0.site_id = site;
            assert(self.values() =~= old(self).values());
        }
    }

    /// The values of the list, in order, each cloned.
    pub fn local_value(&self) -> (v: Vec<T>)
        where T: Clone,
        ensures
            v@.len() == self.values().len(),
            forall|i: int| 0 <= i < v@.len() ==> cloned(self.values()[i], #[trigger] v@[i]),
    {
        let mut v: Vec<T> = Vec::new();
        let mut i: usize = 0;
        while i < self.elements.len()
            invariant
                i <= self.elements.len(),
                v@.len() == i,
                forall|k: int| 0 <= k < i ==> cloned(self.values()[k], #[trigger] v@[k]),
            decreases self.elements.len() - i,
        {
            v.push(self.elements[i].1.clone());
            i = i + 1;
        }
        v
    }

    /// Applies an op from another site and returns its effect here. An
    /// insertion whose Uid is already present, and a removal whose Uid is
    /// absent, change nothing and return `None`.
    pub fn execute_remote(&mut self, op: &RemoteOp<T>) -> (r: Option<LocalOp<T>>)
        where T: Clone,
        ensures
            remote_applied(*old(self), *final(self), *op, r),
    {
        match op {
            RemoteOp::Insert(element) => {
                let index = match self.find_index(&element.0) {
                    Ok(_) => return None,
                    Err(i) => i,
                };
                let stored = element.clone();
                self.elements.insert(index, stored);
                assert(self.keys() =~= old(self).keys().insert(index as int, self.keys()[index as int]));
                assert(self.values().remove(index as int) =~= old(self).values());
                let value = element.1.clone();
                Some(LocalOp::Insert { index: index, value: value })
            }
            RemoteOp::Remove(uid) => {
                let index = match self.find_index(uid) {
                    Ok(i) => i,
                    Err(_) => return None,
                };
                let element = self.elements.remove(index);
                self.tombstones.insert(&Replica::new(element.0.site_id, element.0.counter));
                assert(self.keys() =~= old(self).keys().remove(index as int));
                assert(self.values() =~= old(self).values().remove(index as int));
                Some(LocalOp::Remove { index: index })
            }
        }
    }

    /// The tombstones of the removed elements.
    pub fn tombstones(&self) -> (t: &Tombstones)
        ensures
            t@ == self.removed(),
    {
        &self.tombstones
    }

    /// Finds the element with the given Uid by binary search: `Ok` with
    /// its index, or `Err` with the index where it belongs.
    pub fn find_index(&self, uid: &Uid) -> (r: Result<usize, usize>)
        ensures
            match (r, search(self.keys(), *uid, 0, self.keys().len() as int)) {
                (Ok(i), Ok(j)) => i as int == j,
                (Err(i), Err(j)) => i as int == j,
                _ => false,
            },
            match r {
                Ok(i) => i < self.keys().len(),
                Err(i) => i <= self.keys().len(),
            },
    {
        let ghost keys = self.keys();
        proof {
            lemma_search_bounds(keys, *uid, 0, keys.len() as int);
        }
        let mut lo: usize = 0;
        let mut hi: usize = self.elements.len();
        while lo < hi
            invariant
                keys == self.keys(),
                lo <= hi <= keys.len(),
                search(keys, *uid, 0, keys.len() as int) == search(keys, *uid, lo as int, hi as int),
            decreases hi - lo,
        {
            let mid = lo + (hi - lo) / 2;
            let e = &self.elements[mid];
            assert(keys[mid as int] == e.0);
            if e.0.precedes(uid) {
                lo = mid + 1;
            } else if e.0.same(uid) {
                return Ok(mid);
            } else {
                hi = mid;
            }
        }
        Err(lo)
    }
}

impl<T> RemoteOp<T> {
    /// Gives the op's Uid a site: an insertion's Uid always takes it, a
    /// removal's only when it has none.
    pub fn add_site(&mut self, site: u32)
        ensures
            *final(self) == op_with_site(*old(self), site),
    {
        match self {
            RemoteOp::Insert(element) => {
                element.0.site_id = site;
            }
            RemoteOp::Remove(uid) => {
                if uid.site_id == 0 {
                    uid.site_id = site;
                }
            }
        }
    }

    /// Checks that an insertion's Uid carries the given site; removals
    /// always pass.
    pub fn validate_site(&self, site: u32) -> (r: Result<(), Error>)
        ensures
            r == (match *self {
                RemoteOp::Insert(e) => if e.0.site_id == site { Ok::<(), Error>(()) } else { Err(Error::InvalidRemoteOp) },
                RemoteOp::Remove(_) => Ok(()),
            }),
    {
        match self {
            RemoteOp::Remove(_) => Ok(()),
            RemoteOp::Insert(element) => {
                if element.0.site_id == site {
                    Ok(())
                } else {
                    Err(Error::InvalidRemoteOp)
                }
            }
        }
    }
}

impl<T: Clone> Clone for ListValue<T> {
    fn clone(&self) -> (v: Self)
        ensures
            v.keys().len() == self.keys().len(),
            forall|i: int| 0 <= i < self.keys().len() ==> uid_same(&(#[trigger] v.keys()[i]), &self.keys()[i]),
            forall|i: int| 0 <= i < self.keys().len() ==> cloned(self.values()[i], #[trigger] v.values()[i]),
            v.removed() == self.removed(),
    {
        let mut elements: Vec<Element<T>> = Vec::new();
        let mut i: usize = 0;
        while i < self.elements.len()
            invariant
                i <= self.elements.len(),
                elements@.len() == i,
                forall|k: int| 0 <= k < i ==> uid_same(&(#[trigger] elements@[k]).0, &self.elements@[k].0),
                forall|k: int| 0 <= k < i ==> cloned(self.elements@[k].1, (#[trigger] elements@[k]).1),
            decreases self.elements.len() - i,
        {
            elements.push(self.elements[i].clone());
            i = i + 1;
        }
        ListValue { elements: elements, tombstones: self.tombstones.clone() }
    }
}

impl<T: Clone> List<T> {
    /// The list's state.
    pub closed spec fn state(&self) -> ListValue<T> {
        self.value
    }

    /// The replica that names the list's next operation.
    pub closed spec fn replica_of(&self) -> Replica {
        self.replica
    }

    /// The operations made while the list had no site.
    pub closed spec fn awaiting(&self) -> Seq<RemoteOp<T>> {
        self.awaiting_site@
    }

    /// Constructs an empty list with site 1 and counter 0.
    pub fn new() -> (l: Self)
        ensures
            l.state().keys().len() == 0,
            l.state().removed() == Map::<u32, u32>::empty(),
            l.replica_of() == (Replica { site: 1, counter: 0 }),
            l.awaiting().len() == 0,
    {
        let replica = Replica::new(1, 0);
        let value = ListValue::new();
        List { replica: replica, value: value, awaiting_site: Vec::new() }
    }

    /// Constructs a list from a state and a site (0 for none), with
    /// counter 0.
    pub fn from_value(value: ListValue<T>, site: u32) -> (l: Self)
        ensures
            l.state() == value,
            l.replica_of() == (Replica { site: site, counter: 0 }),
            l.awaiting().len() == 0,
    {
        let replica = Replica::new(site, 0);
        List { value: value, replica: replica, awaiting_site: Vec::new() }
    }

    /// The list's site.
    pub fn site(&self) -> (s: u32)
        ensures
            s == self.replica_of().site,
    {
        self.replica.site
    }

    /// The list's state.
    pub fn value(&self) -> (v: &ListValue<T>)
        ensures
            *v == self.state(),
    {
        &self.value
    }

    /// A copy of the list's state.
    pub fn clone_value(&self) -> (v: ListValue<T>)
        ensures
            v.keys().len() == self.state().keys().len(),
            forall|i: int| 0 <= i < v.keys().len() ==> uid_same(&(#[trigger] v.keys()[i]), &self.state().keys()[i]),
            forall|i: int| 0 <= i < v.keys().len() ==> cloned(self.state().values()[i], #[trigger] v.values()[i]),
            v.removed() == self.state().removed(),
    {
        self.value.clone()
    }

    /// The number of elements.
    pub fn len(&self) -> (n: usize)
        ensures
            n == self.state().keys().len(),
    {
        self.value.elements.len()
    }

    /// The value at `index`, or `None` past the end.
    pub fn get(&self, index: usize) -> (r: Option<&T>)
        ensures
            index < self.state().values().len() ==> r == Some(&self.state().values()[index as int]),
            index >= self.state().values().len() ==> r is None,
    {
        if index < self.value.elements.len() {
            Some(&self.value.elements[index].1)
        } else {
            None
        }
    }

    /// The values of the list, in order, each cloned.
    pub fn local_value(&self) -> (v: Vec<T>)
        ensures
            v@.len() == self.state().values().len(),
            forall|i: int| 0 <= i < v@.len() ==> cloned(self.state().values()[i], #[trigger] v@[i]),
    {
        self.value.local_value()
    }

    /// Counts an operation: the counter moves on; with a site the op is
    /// returned, without one it is kept for later and `AwaitingSite` is
    /// returned.
    fn after_op(&mut self, op: RemoteOp<T>) -> (r: Result<RemoteOp<T>, Error>)
        requires
            old(self).replica_of().counter < u32::MAX,
        ensures
            final(self).state() == old(self).state(),
            final(self).replica_of() == (Replica { site: old(self).replica_of().site, counter: (old(self).replica_of().counter + 1) as u32 }),
            old(self).replica_of().site != 0 ==> r == Ok::<RemoteOp<T>, Error>(op) && final(self).awaiting() == old(self).awaiting(),
            old(self).replica_of().site == 0 ==> r == Err::<RemoteOp<T>, Error>(Error::AwaitingSite) && final(self).awaiting() == old(self).awaiting().push(op),
    {
        self.replica.counter = self.replica.counter + 1;
        if self.replica.site != 0 {
            return Ok(op);
        }
        self.awaiting_site.push(op);
        Err(Error::AwaitingSite)
    }

    /// Inserts `value` at `index`, shifting later elements right, and
    /// returns the op that replicates it. An index past the end is
    /// refused with `OutOfBounds`. Without a site, the op is kept for
    /// later and `AwaitingSite` is returned.
    pub fn insert(&mut self, index: usize, value: T) -> (r: Result<RemoteOp<T>, Error>)
        requires
            old(self).replica_of().counter < u32::MAX,
            index <= old(self).state().keys().len() ==> can_place(old(self).state().keys(), index as int),
        ensures
            index > old(self).state().keys().len() ==> {
                &&& r == Err::<RemoteOp<T>, Error>(Error::OutOfBounds)
                &&& unchanged(old(self).state(), final(self).state())
                &&& final(self).replica_of() == old(self).replica_of()
                &&& final(self).awaiting() == old(self).awaiting()
            },
            index <= old(self).state().keys().len() ==> exists|e: Element<T>| {
                &&& inserted(old(self).state(), final(self).state(), index as int, value, old(self).replica_of(), e)
                &&& final(self).replica_of() == (Replica { site: old(self).replica_of().site, counter: (old(self).replica_of().counter + 1) as u32 })
                &&& old(self).replica_of().site != 0 ==> r == Ok::<RemoteOp<T>, Error>(RemoteOp::Insert(e)) && final(self).awaiting() == old(self).awaiting()
                &&& old(self).replica_of().site == 0 ==> r == Err::<RemoteOp<T>, Error>(Error::AwaitingSite) && final(self).awaiting() == old(self).awaiting().push(RemoteOp::Insert(e))
            },
    {
        let op = match self.value.insert(index, value, &self.replica) {
            Ok(op) => op,
            Err(e) => return Err(e),
        };
        self.after_op(op)
    }

    /// Removes the element at `index`, shifting later elements left, and
    /// returns the op that replicates it. An index past the last element
    /// is refused with `OutOfBounds`. Without a site, the op is kept for
    /// later and `AwaitingSite` is returned.
    pub fn remove(&mut self, index: usize) -> (r: Result<RemoteOp<T>, Error>)
        requires
            old(self).replica_of().counter < u32::MAX,
        ensures
            index >= old(self).state().keys().len() ==> {
                &&& r == Err::<RemoteOp<T>, Error>(Error::OutOfBounds)
                &&& unchanged(old(self).state(), final(self).state())
                &&& final(self).replica_of() == old(self).replica_of()
                &&& final(self).awaiting() == old(self).awaiting()
            },
            index < old(self).state().keys().len() ==> exists|u: Uid| {
                &&& removed_at(old(self).state(), final(self).state(), index as int, u)
                &&& final(self).replica_of() == (Replica { site: old(self).replica_of().site, counter: (old(self).replica_of().counter + 1) as u32 })
                &&& old(self).replica_of().site != 0 ==> r == Ok::<RemoteOp<T>, Error>(RemoteOp::Remove(u)) && final(self).awaiting() == old(self).awaiting()
                &&& old(self).replica_of().site == 0 ==> r == Err::<RemoteOp<T>, Error>(Error::AwaitingSite) && final(self).awaiting() == old(self).awaiting().push(RemoteOp::Remove(u))
            },
    {
        let op = match self.value.remove(index) {
            Ok(op) => op,
            Err(e) => return Err(e),
        };
        self.after_op(op)
    }

    /// Merges another list into this one (see `ListValue::merge`).
    pub fn merge(&mut self, other: List<T>)
        ensures
            final(self).state().entries() == merged(old(self).state().entries(), other.state().entries(), old(self).state().removed(), other.state().removed()),
            final(self).state().removed() == join(old(self).state().removed(), other.state().removed()),
            final(self).replica_of() == old(self).replica_of(),
            final(self).awaiting() == old(self).awaiting(),
    {
        let List { value: other_value, replica: _, awaiting_site: _ } = other;
        self.value.merge(other_value)
    }

    /// Applies an op from another site (see `ListValue::execute_remote`).
    pub fn execute_remote(&mut self, op: &RemoteOp<T>) -> (r: Option<LocalOp<T>>)
        ensures
            remote_applied(old(self).state(), final(self).state(), *op, r),
            final(self).replica_of() == old(self).replica_of(),
            final(self).awaiting() == old(self).awaiting(),
    {
        self.value.execute_remote(op)
    }
}

impl<T: Clone> List<T> {
    /// Gives the list a site: the ops kept while it had none get the site
    /// (and so do the elements they inserted), and are returned in order.
    /// A list that has a site refuses with `AlreadyHasSite`.
    pub fn add_site(&mut self, site: u32) -> (r: Result<Vec<RemoteOp<T>>, Error>)
        ensures
            old(self).replica_of().site != 0 ==> r == Err::<Vec<RemoteOp<T>>, Error>(Error::AlreadyHasSite)
                && final(self).state() == old(self).state() && final(self).awaiting() == old(self).awaiting(),
            old(self).replica_of().site == 0 ==> match r {
                Ok(ops) => {
                    &&& ops@ == old(self).awaiting().map_values(|op: RemoteOp<T>| op_with_site(op, site))
                    &&& final(self).state().keys() == sites_added(old(self).state().keys(), old(self).awaiting(), site)
                    &&& final(self).state().values() == old(self).state().values()
                    &&& final(self).state().removed() == old(self).state().removed()
                    &&& final(self).awaiting().len() == 0
                },
                Err(_) => false,
            },
            old(self).replica_of().site != 0 ==> final(self).replica_of() == old(self).replica_of(),
            old(self).replica_of().site == 0 ==> final(self).replica_of() == (Replica { site: site, counter: old(self).replica_of().counter }),
    {
        if self.replica.site != 0 {
            return Err(Error::AlreadyHasSite);
        }
        let mut ops: Vec<RemoteOp<T>> = Vec::new();
        std::mem::swap(&mut ops, &mut self.awaiting_site);
        let ghost orig = ops@;
        let ghost keys0 = self.value.keys();
        let mut i: usize = 0;
        while i < ops.len()
            invariant
                i <= ops.len(),
                ops@.len() == orig.len(),
                forall|k: int| 0 <= k < i ==> ops@[k] == op_with_site(#[trigger] orig[k], site),
                forall|k: int| i <= k < ops@.len() ==> ops@[k] == orig[k],
                self.value.keys() == sites_added(keys0, orig.subrange(0, i as int), site),
                self.value.values() == old(self).state().values(),
                self.value.removed() == old(self).state().removed(),
                self.replica == old(self).replica_of(),
                self.awaiting_site@.len() == 0,
            decreases ops.len() - i,
        {
            self.value.add_site(&ops[i], site);
            ops[i].add_site(site);
            assert(orig.subrange(0, i + 1).drop_last() =~= orig.subrange(0, i as int));
            i = i + 1;
        }
        assert(orig.subrange(0, orig.len() as int) =~= orig);
        assert(ops@ =~= orig.map_values(|op: RemoteOp<T>| op_with_site(op, site)));
        self.replica.site = site;
        Ok(ops)
    }
}

impl<T> View for ListValue<T> {
    type V = (Seq<Uid>, Seq<T>, Map<u32, u32>);

    /// The Uids, the values and the tombstones.
    open spec fn view(&self) -> (Seq<Uid>, Seq<T>, Map<u32, u32>) {
        (self.keys(), self.values(), self.removed())
    }
}

impl<T> crate::crdt_trait::CrdtValue for ListValue<T> {
    type RemoteOp = RemoteOp<T>;

    open spec fn ready(&self) -> bool {
        true
    }

    open spec fn site_taken(v: (Seq<Uid>, Seq<T>, Map<u32, u32>), op: RemoteOp<T>, site: u32) -> (Seq<Uid>, Seq<T>, Map<u32, u32>) {
        (site_added(v.0, op, site), v.1, v.2)
    }

    fn add_site(&mut self, op: &RemoteOp<T>, site: u32) {
        ListValue::add_site(self, op, site)
    }
}

impl<T: Clone> crate::crdt_trait::Crdt for List<T> {
    type LocalValue = Vec<T>;
    type Value = ListValue<T>;
    type RemoteOp = RemoteOp<T>;
    type LocalOp = LocalOp<T>;

    closed spec fn site_view(&self) -> u32 {
        self.replica.site
    }

    closed spec fn value_view(&self) -> ListValue<T> {
        self.value
    }

    closed spec fn awaiting_view(&self) -> Seq<RemoteOp<T>> {
        self.awaiting_site@
    }

    fn value(&mut self) -> (r: &mut ListValue<T>) {
        &mut self.value
    }

    fn site(&self) -> (s: u32) {
        self.replica.site
    }

    fn set_site(&mut self, site: u32) {
        self.replica.site = site;
    }

    fn awaiting_site(&mut self) -> (r: &mut Vec<RemoteOp<T>>) {
        &mut self.awaiting_site
    }

    /// The values, in list order.
    fn into_local(self) -> Vec<T> {
        self.value.local_value()
    }
}

impl<T> crate::crdt_trait::CrdtRemoteOp for RemoteOp<T> {
    open spec fn site_added(&self, site: u32, after: &Self) -> bool {
        *after == op_with_site(*self, site)
    }

    fn add_site(&mut self, site: u32)
    {
        RemoteOp::add_site(self, site)
    }
}

} // verus!
