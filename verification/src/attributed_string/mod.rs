//! An attributed string: text kept as runs (elements) ordered by their
//! sequence Uids, between a start marker and an end marker, so that
//! concurrent edits at several sites can be merged.

pub mod element;
pub mod index;
pub mod range;

use self::element::{elt_same, is_end_uid, is_start_uid, Element};
use self::index::Index;
use self::range::{bound_from, prefix_len};
use crate::error::Error;
use crate::op::local::{DeleteText, InsertText, LocalOp};
use crate::op::remote::UpdateAttributedString;
use crate::replica::Replica;
use crate::sequence::uid::{lemma_placeable_step, lemma_uid_order, placeable, uid_lt, uid_same, Uid};
use vstd::prelude::*;

verus! {

/// A string of text runs, ordered by Uid, with its length in characters.
#[derive(Debug, Clone, PartialEq)]
pub struct AttributedString {
    pub len: usize,
    pub elements: Vec<Element>,
}

/// The text of the elements, in order.
pub open spec fn text_of(es: Seq<Element>) -> Seq<char>
    decreases es.len(),
{
    if es.len() == 0 {
        Seq::empty()
    } else {
        text_of(es.drop_last()) + es.last().text@
    }
}

/// The Uids strictly increase.
pub open spec fn uids_increase(es: Seq<Element>) -> bool {
    forall|i: int, j: int| 0 <= i < j < es.len() ==> uid_lt(&es[i].uid, &es[j].uid)
}

/// Each element's length is the number of characters of its text.
pub open spec fn lengths_match(es: Seq<Element>) -> bool {
    forall|i: int| 0 <= i < es.len() ==> (#[trigger] es[i]).len == es[i].text@.len()
}

/// The elements of a well-formed attributed string: the empty start
/// marker first, the empty end marker last, Uids strictly increasing,
/// lengths matching the texts.
pub open spec fn elements_wf(es: Seq<Element>) -> bool {
    &&& es.len() >= 2
    &&& is_start_uid(es[0].uid)
    &&& es[0].text@.len() == 0
    &&& is_end_uid(es[es.len() - 1].uid)
    &&& es[es.len() - 1].text@.len() == 0
    &&& lengths_match(es)
    &&& uids_increase(es)
}

/// `es` with `es[i..j]` replaced by `mid`.
pub open spec fn splice(es: Seq<Element>, i: int, j: int, mid: Seq<Element>) -> Seq<Element> {
    es.subrange(0, i) + mid + es.subrange(j, es.len() as int)
}

/// The text of a concatenation is the concatenation of the texts.
pub proof fn lemma_text_of_add(a: Seq<Element>, b: Seq<Element>)
    ensures
        text_of(a + b) == text_of(a) + text_of(b),
    decreases b.len(),
{
    if b.len() == 0 {
        assert(a + b =~= a);
        assert(text_of(b) =~= Seq::<char>::empty());
        assert(text_of(a) + text_of(b) =~= text_of(a));
    } else {
        lemma_text_of_add(a, b.drop_last());
        assert((a + b).drop_last() =~= a + b.drop_last());
        assert((a + b).last() == b.last());
        assert(text_of(a) + text_of(b) =~= text_of(a) + text_of(b.drop_last()) + b.last().text@);
    }
}

/// Where the lengths match the texts, the text of the first `k` elements
/// has `prefix_len(es, k)` characters.
pub proof fn lemma_text_of_prefix_len(es: Seq<Element>, k: int)
    requires
        lengths_match(es),
        0 <= k <= es.len(),
    ensures
        text_of(es.subrange(0, k)).len() == prefix_len(es, k),
    decreases k,
{
    if k > 0 {
        lemma_text_of_prefix_len(es, k - 1);
        assert(es.subrange(0, k).drop_last() =~= es.subrange(0, k - 1));
        assert(es.subrange(0, k).last() == es[k - 1]);
    }
}

/// The text of a splice: the text before, the new elements' text, the
/// text after.
pub proof fn lemma_text_of_splice(es: Seq<Element>, i: int, j: int, mid: Seq<Element>)
    requires
        0 <= i <= j <= es.len(),
    ensures
        text_of(splice(es, i, j, mid)) == text_of(es.subrange(0, i)) + text_of(mid) + text_of(es.subrange(j, es.len() as int)),
        text_of(es) == text_of(es.subrange(0, i)) + text_of(es.subrange(i, j)) + text_of(es.subrange(j, es.len() as int)),
{
    lemma_text_of_add(es.subrange(0, i) + mid, es.subrange(j, es.len() as int));
    lemma_text_of_add(es.subrange(0, i), mid);
    lemma_text_of_add(es.subrange(0, i) + es.subrange(i, j), es.subrange(j, es.len() as int));
    lemma_text_of_add(es.subrange(0, i), es.subrange(i, j));
    assert(es =~= es.subrange(0, i) + es.subrange(i, j) + es.subrange(j, es.len() as int));
}

/// The text of one element.
pub proof fn lemma_text_of_one(e: Element)
    ensures
        text_of(seq![e]) == e.text@,
{
    assert(seq![e].drop_last() =~= Seq::<Element>::empty());
    assert(text_of(Seq::<Element>::empty()) + e.text@ =~= e.text@);
}

/// Replacing a run of a well-formed string's interior by elements in Uid
/// order between the neighbours keeps it well formed.
pub proof fn lemma_splice_wf(es: Seq<Element>, i: int, j: int, mid: Seq<Element>)
    requires
        elements_wf(es),
        0 < i <= j < es.len(),
        lengths_match(mid),
        uids_increase(mid),
        mid.len() > 0 ==> uid_lt(&es[i - 1].uid, &mid[0].uid) && uid_lt(&mid[mid.len() - 1].uid, &es[j].uid),
        mid.len() == 0 ==> uid_lt(&es[i - 1].uid, &es[j].uid),
    ensures
        elements_wf(splice(es, i, j, mid)),
        splice(es, i, j, mid).len() == es.len() - (j - i) + mid.len(),
{
    let r = splice(es, i, j, mid);
    let m = mid.len() as int;
    // where an index of the result comes from
    assert forall|x: int| 0 <= x < r.len() implies #[trigger] r[x] == (if x < i { es[x] } else if x < i + m { mid[x - i] } else { es[x - i - m + j] }) by {}
    assert(r[0] == es[0]);
    assert(r[r.len() - 1] == es[es.len() - 1]);
    assert forall|x: int| 0 <= x < r.len() implies (#[trigger] r[x]).len == r[x].text@.len() by {
        if x < i {
        } else if x < i + m {
            assert(mid[x - i].len == mid[x - i].text@.len());
        } else {
            assert(es[x - i - m + j].len == es[x - i - m + j].text@.len());
        }
    }
    assert forall|x: int, y: int| 0 <= x < y < r.len() implies uid_lt(&r[x].uid, &r[y].uid) by {
        let a = es[i - 1].uid;
        let b = es[j].uid;
        if x < i && y < i {
        } else if x < i && y < i + m {
            // r[x] <= a < mid[0] <= mid[y - i]
            lemma_uid_order(&r[x].uid, &a, &mid[0].uid);
            lemma_uid_order(&r[x].uid, &mid[0].uid, &r[y].uid);
            if x < i - 1 {
                assert(uid_lt(&r[x].uid, &a));
            }
            if y - i > 0 {
                assert(uid_lt(&mid[0].uid, &mid[y - i].uid));
            }
        } else if x < i {
            // r[x] <= a < b <= r[y]
            let yy = y - i - m + j;
            if m > 0 {
                lemma_uid_order(&a, &mid[0].uid, &mid[m - 1].uid);
                if m > 1 {
                    assert(uid_lt(&mid[0].uid, &mid[m - 1].uid));
                }
                lemma_uid_order(&a, &mid[m - 1].uid, &b);
            }
            assert(uid_lt(&a, &b));
            lemma_uid_order(&r[x].uid, &a, &b);
            if x < i - 1 {
                assert(uid_lt(&r[x].uid, &a));
            }
            lemma_uid_order(&r[x].uid, &b, &r[y].uid);
            if yy > j {
                assert(uid_lt(&b, &es[yy].uid));
            }
        } else if y < i + m {
            assert(uid_lt(&mid[x - i].uid, &mid[y - i].uid));
        } else if x < i + m {
            // mid[x - i] <= mid.last < b <= r[y]
            let yy = y - i - m + j;
            lemma_uid_order(&mid[x - i].uid, &mid[m - 1].uid, &b);
            if x - i < m - 1 {
                assert(uid_lt(&mid[x - i].uid, &mid[m - 1].uid));
            }
            lemma_uid_order(&mid[x - i].uid, &b, &r[y].uid);
            if yy > j {
                assert(uid_lt(&b, &es[yy].uid));
            }
        } else {
            assert(uid_lt(&es[x - i - m + j].uid, &es[y - i - m + j].uid));
        }
    }
}

/// Character `index` lies at offset `o` of element `e` (not the start
/// marker); the index just past the text lies at the end marker.
pub open spec fn located(es: Seq<Element>, index: int, e: int, o: int) -> bool {
    &&& 1 <= e < es.len()
    &&& 0 <= o
    &&& prefix_len(es, e) + o == index
    &&& (o < es[e].len || (e == es.len() - 1 && o == 0))
}

/// Character `index` lies in one place only.
proof fn lemma_located_unique(es: Seq<Element>, index: int, e1: int, o1: int, e2: int, o2: int)
    requires
        located(es, index, e1, o1),
        located(es, index, e2, o2),
    ensures
        e1 == e2,
        o1 == o2,
{
    if e1 < e2 {
        assert(prefix_len(es, e1 + 1) == prefix_len(es, e1) + es[e1].len);
        crate::attributed_string::range::lemma_prefix_len_monotone(es, e1 + 1, e2);
    } else if e2 < e1 {
        assert(prefix_len(es, e2 + 1) == prefix_len(es, e2) + es[e2].len);
        crate::attributed_string::range::lemma_prefix_len_monotone(es, e2 + 1, e1);
    }
}

/// `e` was made by `replica` between Uids `prev` and `next`: its position
/// is one that `between` makes for them, and it carries the replica.
pub open spec fn placed_between(prev: Uid, next: Uid, e: Element, replica: Replica) -> bool {
    &&& crate::sequence::uid::between_position(prev.position@, next.position@, e.uid.position@)
    &&& e.uid.site_id == replica.site
    &&& e.uid.counter == replica.counter
}

/// What a successful insertion of `t` at character `index` made: at the
/// start of element `e`, one element holding `t` between `e` and the
/// element before; inside element `e`, at offset `o`, `e` replaced by
/// three elements holding its text before `o`, `t` and its text from
/// `o`, each made between the one before it and the element after `e`.
pub open spec fn insert_made(before: Seq<Element>, after: Seq<Element>, index: int, t: Seq<char>, replica: Replica, op: UpdateAttributedString) -> bool {
    forall|e: int, o: int| #[trigger] located(before, index, e, o) ==> if o == 0 {
        &&& replaced_run(before, after, e, e, op)
        &&& op.inserts@.len() == 1
        &&& op.inserts@[0].text@ == t
        &&& placed_between(before[e - 1].uid, before[e].uid, op.inserts@[0], replica)
    } else {
        let et = before[e].text@;
        let ins = op.inserts@;
        &&& replaced_run(before, after, e, e + 1, op)
        &&& ins.len() == 3
        &&& ins[0].text@ == et.subrange(0, o)
        &&& ins[1].text@ == t
        &&& ins[2].text@ == et.subrange(o, et.len() as int)
        &&& placed_between(before[e - 1].uid, before[e + 1].uid, ins[0], replica)
        &&& placed_between(ins[0].uid, before[e + 1].uid, ins[1], replica)
        &&& placed_between(ins[1].uid, before[e + 1].uid, ins[2], replica)
    }
}

/// The elements `ins` keep what a deletion leaves of the run `i..j` of
/// `before`: `pre` (the text of element `i` before the deletion) and
/// `post` (the text of element `j - 1` after it), in one element when the
/// run is one element, else in an element each; each made by `replica`
/// between the one before it and element `j`. A deletion of whole
/// elements keeps none.
pub open spec fn remains_as(before: Seq<Element>, i: int, j: int, pre: Seq<char>, post: Seq<char>, replica: Replica, ins: Seq<Element>) -> bool {
    let prev = before[i - 1].uid;
    let next = before[j].uid;
    if j == i + 1 {
        if pre.len() > 0 || post.len() > 0 {
            ins.len() == 1 && ins[0].text@ == pre + post && placed_between(prev, next, ins[0], replica)
        } else {
            ins.len() == 0
        }
    } else if pre.len() > 0 && post.len() > 0 {
        &&& ins.len() == 2
        &&& ins[0].text@ == pre && placed_between(prev, next, ins[0], replica)
        &&& ins[1].text@ == post && placed_between(ins[0].uid, next, ins[1], replica)
    } else if pre.len() > 0 {
        ins.len() == 1 && ins[0].text@ == pre && placed_between(prev, next, ins[0], replica)
    } else if post.len() > 0 {
        ins.len() == 1 && ins[0].text@ == post && placed_between(prev, next, ins[0], replica)
    } else {
        ins.len() == 0
    }
}

/// What a successful deletion of characters `[index, index + len)` made:
/// the run it touches replaced by the elements that keep what it leaves
/// of the run (see `remains_as`).
pub open spec fn delete_made(before: Seq<Element>, after: Seq<Element>, index: int, len: int, replica: Replica, op: UpdateAttributedString) -> bool {
    forall|i: int, j: int| #[trigger] deleted_run(before, index, len, i, j) ==> {
        let offset = index - prefix_len(before, i);
        let over = prefix_len(before, j) - (index + len);
        let last = before[j - 1].text@;
        &&& replaced_run(before, after, i, j, op)
        &&& remains_as(before, i, j, before[i].text@.subrange(0, offset), last.subrange(last.len() - over, last.len() as int), replica, op.inserts@)
    }
}

/// Copies of the elements that keep what a deletion leaves keep it too.
proof fn lemma_remains_copies(before: Seq<Element>, i: int, j: int, pre: Seq<char>, post: Seq<char>, replica: Replica, a: Seq<Element>, b: Seq<Element>)
    requires
        remains_as(before, i, j, pre, post, replica, a),
        crate::op::remote::same_elements(a, b),
    ensures
        remains_as(before, i, j, pre, post, replica, b),
{
    if a.len() > 0 {
        assert(elt_same(a[0], b[0]));
    }
    if a.len() > 1 {
        assert(elt_same(a[1], b[1]));
    }
}

/// A deletion touches one run only.
proof fn lemma_deleted_run_unique(es: Seq<Element>, index: int, len: int, i1: int, j1: int, i2: int, j2: int)
    requires
        deleted_run(es, index, len, i1, j1),
        deleted_run(es, index, len, i2, j2),
    ensures
        i1 == i2,
        j1 == j2,
{
    if i1 < i2 {
        assert(prefix_len(es, i1 + 1) == prefix_len(es, i1) + es[i1].len);
        crate::attributed_string::range::lemma_prefix_len_monotone(es, i1 + 1, i2);
    } else if i2 < i1 {
        assert(prefix_len(es, i2 + 1) == prefix_len(es, i2) + es[i2].len);
        crate::attributed_string::range::lemma_prefix_len_monotone(es, i2 + 1, i1);
    }
    if j1 < j2 {
        crate::attributed_string::range::lemma_prefix_len_monotone(es, j1, j2 - 1);
    } else if j2 < j1 {
        crate::attributed_string::range::lemma_prefix_len_monotone(es, j2, j1 - 1);
    }
}

/// An insertion at character `index` can always make its elements: at
/// the start of an element, one Uid between it and the element before;
/// inside an element, three Uids in turn between the elements around it.
pub open spec fn insert_room(es: Seq<Element>, index: int) -> bool {
    forall|e: int, o: int| #[trigger] located(es, index, e, o) ==> if o == 0 {
        placeable(es[e - 1].uid.position@, es[e].uid.position@, 0)
    } else {
        placeable(es[e - 1].uid.position@, es[e + 1].uid.position@, 2)
    }
}

/// Deleting characters `[index, index + len)` touches exactly the elements
/// `i..j`: character `index` lies in element `i`, and the last deleted
/// character in element `j - 1`.
pub open spec fn deleted_run(es: Seq<Element>, index: int, len: int, i: int, j: int) -> bool {
    &&& 1 <= i < j < es.len()
    &&& prefix_len(es, i) <= index < prefix_len(es, i) + es[i].len
    &&& prefix_len(es, j - 1) < index + len <= prefix_len(es, j)
}

/// A deletion can always make the elements that keep what it leaves of
/// the run it touches: where it cuts into the run's first or last
/// element, two Uids in turn between the run's neighbours. A deletion of
/// whole elements makes none.
pub open spec fn delete_room(es: Seq<Element>, index: int, len: int) -> bool {
    forall|i: int, j: int| #[trigger] deleted_run(es, index, len, i, j) ==>
        (prefix_len(es, i) < index || index + len < prefix_len(es, j) ==> placeable(es[i - 1].uid.position@, es[j].uid.position@, 1))
}

/// `after` is `before` with the run `before[i..j]` replaced by copies of
/// the elements `op` inserts, and `op` deletes exactly that run.
pub open spec fn replaced_run(before: Seq<Element>, after: Seq<Element>, i: int, j: int, op: UpdateAttributedString) -> bool {
    &&& 0 < i <= j < before.len()
    &&& after == splice(before, i, j, after.subrange(i, i + op.inserts@.len()))
    &&& crate::op::remote::same_elements(after.subrange(i, i + op.inserts@.len()), op.inserts@)
    &&& op.deletes@ == before.subrange(i, j)
}

/// `after` is `before` with characters `[index, index + len)` deleted,
/// by replacing a run of elements as `op` records.
pub open spec fn text_deleted(before: AttributedString, after: AttributedString, index: int, len: int, op: UpdateAttributedString) -> bool {
    &&& after.text() == before.text().subrange(0, index) + before.text().subrange(index + len, before.len as int)
    &&& exists|i: int, j: int| #[trigger] replaced_run(before.elements@, after.elements@, i, j, op)
}

/// The text of three elements.
pub proof fn lemma_text_of_three(a: Element, b: Element, c: Element)
    ensures
        text_of(seq![a, b, c]) == a.text@ + b.text@ + c.text@,
{
    let s = seq![a, b, c];
    assert(s.drop_last() =~= seq![a, b]);
    assert(seq![a, b].drop_last() =~= seq![a]);
    lemma_text_of_one(a);
    assert(text_of(seq![a, b]) == a.text@ + b.text@);
    assert(text_of(s) == text_of(seq![a, b]) + c.text@);
}

/// The text left by deleting characters `[index, index + len)`, where
/// they run from offset `offset` of element `i` to `over` characters
/// before the end of element `j - 1`: the text before element `i`, what
/// the deletion leaves of elements `i..j`, the text from element `j`.
pub proof fn lemma_delete_text(es: Seq<Element>, i: int, j: int, offset: int, over: int, index: int, len: int, kept: Seq<char>)
    requires
        lengths_match(es),
        0 <= i < j <= es.len(),
        prefix_len(es, i) + offset == index,
        0 <= offset <= es[i].len,
        prefix_len(es, j) == index + len + over,
        0 <= over <= es[j - 1].len,
        len >= 0,
        kept == es[i].text@.subrange(0, offset) + es[j - 1].text@.subrange(es[j - 1].len - over, es[j - 1].len as int),
    ensures
        text_of(es.subrange(0, i)) + kept + text_of(es.subrange(j, es.len() as int))
            == text_of(es).subrange(0, index) + text_of(es).subrange(index + len, text_of(es).len() as int),
{
    let t = text_of(es);
    let a = text_of(es.subrange(0, i));
    let m = text_of(es.subrange(i, j));
    let b = text_of(es.subrange(j, es.len() as int));
    lemma_text_of_splice(es, i, j, Seq::<Element>::empty());
    lemma_text_of_prefix_len(es, i);
    lemma_text_of_prefix_len(es, j);
    lemma_text_of_splice(es, 0, j, Seq::<Element>::empty());
    // the first element of the run opens it
    let run = es.subrange(i, j);
    lemma_text_of_add(seq![run[0]], run.drop_first());
    assert(seq![run[0]] + run.drop_first() =~= run);
    lemma_text_of_one(run[0]);
    let et = es[i].text@;
    assert(m == et + text_of(run.drop_first()));
    // the last element of the run closes it
    assert(run.drop_last() =~= es.subrange(i, j - 1));
    let lt = es[j - 1].text@;
    assert(m == text_of(es.subrange(i, j - 1)) + lt);
    assert(es.subrange(0, j) =~= es.subrange(0, i) + run);
    lemma_text_of_add(es.subrange(0, i), run);
    assert(m.len() == offset + len + over);
    assert(es[i].len == et.len() && es[j - 1].len == lt.len());
    assert(t =~= a + m + b);
    assert(m.subrange(0, offset) =~= et.subrange(0, offset));
    assert(m.subrange(m.len() - over, m.len() as int) =~= lt.subrange(lt.len() - over, lt.len() as int));
    assert(t.subrange(0, index) =~= a + m.subrange(0, offset));
    assert(t.subrange(index + len, t.len() as int) =~= m.subrange(m.len() - over, m.len() as int) + b);
}

/// Splits `s` before its character `char_index`.
pub fn split_at_char(s: &str, char_index: usize) -> (r: (String, String))
    requires
        char_index <= s@.len(),
    ensures
        r.0@ == s@.subrange(0, char_index as int),
        r.1@ == s@.subrange(char_index as int, s@.len() as int),
{
    let n = s.unicode_len();
    let pre = s.substring_char(0, char_index);
    let post = s.substring_char(char_index, n);
    (pre.to_string(), post.to_string())
}

impl AttributedString {
    /// The string is well formed and its length is that of its text.
    pub open spec fn wf(&self) -> bool {
        &&& elements_wf(self.elements@)
        &&& self.len == text_of(self.elements@).len()
    }

    /// The string's text.
    pub open spec fn text(&self) -> Seq<char> {
        text_of(self.elements@)
    }

    /// The empty string: the start and end markers.
    pub fn new() -> (s: Self)
        ensures
            s.wf(),
            s.text().len() == 0,
            s.elements@.len() == 2,
            views(s.elements@) == marker_views(),
    {
        let mut elements: Vec<Element> = Vec::new();
        elements.push(Element::start_marker());
        elements.push(Element::end_marker());
        proof {
            let es = elements@;
            assert(es.drop_last() =~= seq![es[0]]);
            lemma_text_of_one(es[0]);
            crate::sequence::uid::lemma_position_lt_trichotomy(es[0].uid.position@, es[1].uid.position@);
            assert(es[0].uid.position@[0] < es[1].uid.position@[0]);
            assert(uid_lt(&es[0].uid, &es[1].uid));
            assert(es[0].text@ =~= Seq::<char>::empty());
            assert(es[1].text@ =~= Seq::<char>::empty());
            assert(views(es) =~= marker_views());
        }
        AttributedString { len: 0, elements: elements }
    }

    /// The number of characters.
    pub fn len(&self) -> (n: usize)
        requires
            self.wf(),
        ensures
            n == self.text().len(),
    {
        self.len
    }

    /// The element that holds character `index` and the offset in it;
    /// the end marker, with offset 0, for the index just past the text.
    fn locate(&self, index: usize) -> (r: (usize, usize))
        requires
            self.wf(),
            index <= self.len,
        ensures
            1 <= r.0 < self.elements@.len(),
            prefix_len(self.elements@, r.0 as int) + r.1 == index,
            r.1 < self.elements@[r.0 as int].len || (r.0 == self.elements@.len() - 1 && r.1 == 0),
    {
        let ghost es = self.elements@;
        proof {
            lemma_text_of_prefix_len(es, es.len() as int);
            assert(es.subrange(0, es.len() as int) =~= es);
        }
        let mut i: usize = 0;
        let mut acc: usize = 0;
        while i < self.elements.len()
            invariant
                es == self.elements@,
                elements_wf(es),
                self.len == prefix_len(es, es.len() as int),
                index <= self.len,
                i <= es.len(),
                acc == prefix_len(es, i as int),
                acc <= index,
                i > 0 || acc == 0,
            decreases es.len() - i,
        {
            proof {
                crate::attributed_string::range::lemma_prefix_len_monotone(es, i + 1, es.len() as int);
                assert(prefix_len(es, i + 1) == prefix_len(es, i as int) + es[i as int].len);
            }
            let elt_len = self.elements[i].len;
            if acc + elt_len > index {
                proof {
                    if i == 0 {
                        assert(es[0].len == es[0].text@.len());
                    }
                }
                return (i, index - acc);
            }
            acc = acc + elt_len;
            i = i + 1;
        }
        proof {
            let n = es.len() as int;
            assert(es[n - 1].len == es[n - 1].text@.len());
            assert(prefix_len(es, n) == prefix_len(es, n - 1) + es[n - 1].len);
        }
        (self.elements.len() - 1, 0)
    }

    /// Inserts an element holding `text` just before element `eidx`.
    fn insert_before(&mut self, eidx: usize, text: String, n: usize, replica: &Replica) -> (r: Result<UpdateAttributedString, Error>)
        requires
            old(self).wf(),
            1 <= eidx < old(self).elements@.len(),
            n == text@.len(),
            old(self).len + n <= usize::MAX,
        ensures
            final(self).wf(),
            match r {
                Ok(op) => {
                    &&& final(self).text() == text_of(old(self).elements@.subrange(0, eidx as int)) + text@
                        + text_of(old(self).elements@.subrange(eidx as int, old(self).elements@.len() as int))
                    &&& replaced_run(old(self).elements@, final(self).elements@, eidx as int, eidx as int, op)
                    &&& op.inserts@.len() == 1
                    &&& op.inserts@[0].text@ == text@
                    &&& placed_between(old(self).elements@[eidx - 1].uid, old(self).elements@[eidx as int].uid, op.inserts@[0], *replica)
                },
                Err(e) => e == Error::OutOfBounds && *final(self) == *old(self),
            },
            placeable(old(self).elements@[eidx - 1].uid.position@, old(self).elements@[eidx as int].uid.position@, 0) ==> r is Ok,
    {
        let ghost es = self.elements@;
        let prev = &self.elements[eidx - 1];
        let next = &self.elements[eidx];
        if !Uid::fits_between(&prev.uid, &next.uid) {
            return Err(Error::OutOfBounds);
        }
        let e = Element::between(prev, next, text, replica);
        proof {
            if placeable(prev.uid.position@, next.uid.position@, 0) {
                lemma_placeable_step(prev.uid.position@, next.uid.position@, e.uid.position@, 0);
            }
        }
        if !(prev.uid.precedes(&e.uid) && e.uid.precedes(&next.uid)) {
            return Err(Error::OutOfBounds);
        }
        let copy = e.clone();
        let ghost mid = seq![e];
        self.elements.insert(eidx, e);
        proof {
            assert(self.elements@ =~= splice(es, eidx as int, eidx as int, mid));
            lemma_splice_wf(es, eidx as int, eidx as int, mid);
            lemma_text_of_splice(es, eidx as int, eidx as int, mid);
            lemma_text_of_one(e);
        }
        self.len = self.len + n;
        let mut inserts: Vec<Element> = Vec::new();
        inserts.push(copy);
        let op = UpdateAttributedString { inserts: inserts, deletes: Vec::new() };
        proof {
            assert(self.elements@.subrange(eidx as int, eidx + 1) =~= mid);
            assert(es.subrange(eidx as int, eidx as int) =~= op.deletes@);
        }
        Ok(op)
    }

    /// Replaces element `eidx` by three: its text before `offset`, an
    /// element holding `text`, its text from `offset`.
    fn insert_inside(&mut self, eidx: usize, offset: usize, text: String, n: usize, replica: &Replica) -> (r: Result<UpdateAttributedString, Error>)
        requires
            old(self).wf(),
            1 <= eidx < old(self).elements@.len(),
            0 < offset < old(self).elements@[eidx as int].len,
            n == text@.len(),
            old(self).len + n <= usize::MAX,
        ensures
            final(self).wf(),
            match r {
                Ok(op) => {
                    let es = old(self).elements@;
                    let et = es[eidx as int].text@;
                    &&& final(self).text() == text_of(es.subrange(0, eidx as int)) + et.subrange(0, offset as int) + text@
                        + et.subrange(offset as int, et.len() as int) + text_of(es.subrange(eidx + 1, es.len() as int))
                    &&& replaced_run(es, final(self).elements@, eidx as int, eidx + 1, op)
                    &&& op.inserts@.len() == 3
                    &&& op.inserts@[0].text@ == et.subrange(0, offset as int)
                    &&& op.inserts@[1].text@ == text@
                    &&& op.inserts@[2].text@ == et.subrange(offset as int, et.len() as int)
                    &&& placed_between(es[eidx - 1].uid, es[eidx + 1].uid, op.inserts@[0], *replica)
                    &&& placed_between(op.inserts@[0].uid, es[eidx + 1].uid, op.inserts@[1], *replica)
                    &&& placed_between(op.inserts@[1].uid, es[eidx + 1].uid, op.inserts@[2], *replica)
                },
                Err(e) => e == Error::OutOfBounds && *final(self) == *old(self),
            },
            placeable(old(self).elements@[eidx - 1].uid.position@, old(self).elements@[eidx + 1].uid.position@, 2) ==> r is Ok,
    {
        let ghost es = self.elements@;
        proof {
            assert(es[eidx as int].len == es[eidx as int].text@.len());
            assert(es.len() == self.elements.len());
            assert(eidx + 1 < es.len());
        }
        let prev = &self.elements[eidx - 1];
        let next = &self.elements[eidx + 1];
        let (pre_text, post_text) = split_at_char(self.elements[eidx].text.as_str(), offset);
        if !Uid::fits_between(&prev.uid, &next.uid) {
            return Err(Error::OutOfBounds);
        }
        let pre = Element::between(prev, next, pre_text, replica);
        let ghost deep = placeable(prev.uid.position@, next.uid.position@, 2);
        proof {
            if deep {
                lemma_placeable_step(prev.uid.position@, next.uid.position@, pre.uid.position@, 2);
            }
        }
        if !(prev.uid.precedes(&pre.uid) && pre.uid.precedes(&next.uid)) {
            return Err(Error::OutOfBounds);
        }
        if !Uid::fits_between(&pre.uid, &next.uid) {
            return Err(Error::OutOfBounds);
        }
        let new = Element::between(&pre, next, text, replica);
        proof {
            if deep {
                lemma_placeable_step(pre.uid.position@, next.uid.position@, new.uid.position@, 1);
            }
        }
        if !(pre.uid.precedes(&new.uid) && new.uid.precedes(&next.uid)) {
            return Err(Error::OutOfBounds);
        }
        if !Uid::fits_between(&new.uid, &next.uid) {
            return Err(Error::OutOfBounds);
        }
        let post = Element::between(&new, next, post_text, replica);
        proof {
            if deep {
                lemma_placeable_step(new.uid.position@, next.uid.position@, post.uid.position@, 0);
            }
        }
        if !(new.uid.precedes(&post.uid) && post.uid.precedes(&next.uid)) {
            return Err(Error::OutOfBounds);
        }
        let ghost e_old = es[eidx as int];
        let ghost mid = seq![pre, new, post];
        let c1 = pre.clone();
        let c2 = new.clone();
        let c3 = post.clone();
        let removed = self.elements.remove(eidx);
        self.elements.insert(eidx, post);
        self.elements.insert(eidx, new);
        self.elements.insert(eidx, pre);
        proof {
            assert(self.elements@ =~= splice(es, eidx as int, eidx + 1, mid));
            lemma_uid_order(&mid[0].uid, &mid[1].uid, &mid[2].uid);
            lemma_splice_wf(es, eidx as int, eidx + 1, mid);
            lemma_text_of_splice(es, eidx as int, eidx + 1, mid);
            lemma_text_of_three(mid[0], mid[1], mid[2]);
            assert(es.subrange(eidx as int, eidx + 1) =~= seq![e_old]);
            lemma_text_of_one(e_old);
        }
        self.len = self.len + n;
        let mut inserts: Vec<Element> = Vec::new();
        inserts.push(c1);
        inserts.push(c2);
        inserts.push(c3);
        let mut deletes: Vec<Element> = Vec::new();
        deletes.push(removed);
        let op = UpdateAttributedString { inserts: inserts, deletes: deletes };
        proof {
            assert(self.elements@.subrange(eidx as int, eidx + 3) =~= mid);
            assert(es.subrange(eidx as int, eidx + 1) =~= op.deletes@);
        }
        Ok(op)
    }

    /// Inserts `text` at character `index` as new elements made by
    /// `replica`, and returns the update for other sites. At the start of
    /// an element the text goes in before it; inside an element, the
    /// element is replaced by three: the text before, the new text, the
    /// text after. Empty text is refused with `Noop`, an index past the
    /// end with `OutOfBounds`; `OutOfBounds` also comes, with the string
    /// unchanged, when no Uid could be made between the neighbours, which
    /// never happens where they leave room (`insert_room`).
    pub fn insert_text(&mut self, index: usize, text: String, replica: &Replica) -> (r: Result<UpdateAttributedString, Error>)
        requires
            old(self).wf(),
            old(self).len + text@.len() <= usize::MAX,
        ensures
            final(self).wf(),
            text@.len() == 0 ==> r == Err::<UpdateAttributedString, Error>(Error::Noop) && *final(self) == *old(self),
            text@.len() > 0 && index > old(self).len ==> r == Err::<UpdateAttributedString, Error>(Error::OutOfBounds) && *final(self) == *old(self),
            text@.len() > 0 && index <= old(self).len ==> match r {
                Ok(op) => {
                    &&& final(self).text() == old(self).text().subrange(0, index as int) + text@ + old(self).text().subrange(index as int, old(self).len as int)
                    &&& exists|i: int, j: int| #[trigger] replaced_run(old(self).elements@, final(self).elements@, i, j, op)
                    &&& insert_made(old(self).elements@, final(self).elements@, index as int, text@, *replica, op)
                },
                Err(e) => e == Error::OutOfBounds && *final(self) == *old(self) && !insert_room(old(self).elements@, index as int),
            },
    {
        let n = text.as_str().unicode_len();
        if n == 0 {
            return Err(Error::Noop);
        }
        if index > self.len {
            return Err(Error::OutOfBounds);
        }
        let ghost es = self.elements@;
        let ghost old_text = text_of(es);
        let ghost t = text@;
        let (eidx, offset) = self.locate(index);
        proof {
            lemma_text_of_prefix_len(es, eidx as int);
            assert(located(es, index as int, eidx as int, offset as int));
        }
        if offset == 0 {
            let r = self.insert_before(eidx, text, n, replica);
            proof {
                if r is Ok {
                    lemma_text_of_splice(es, eidx as int, eidx as int, Seq::<Element>::empty());
                    assert(es.subrange(eidx as int, eidx as int) =~= Seq::<Element>::empty());
                    assert(text_of(Seq::<Element>::empty()) =~= Seq::<char>::empty());
                    let left = text_of(es.subrange(0, eidx as int));
                    let right = text_of(es.subrange(eidx as int, es.len() as int));
                    assert(old_text =~= left + right);
                    assert(old_text.subrange(0, index as int) =~= left);
                    assert(old_text.subrange(index as int, old_text.len() as int) =~= right);
                    assert(self.text() =~= old_text.subrange(0, index as int) + t + old_text.subrange(index as int, old_text.len() as int));
                    let op = r->Ok_0;
                    assert(replaced_run(es, self.elements@, eidx as int, eidx as int, op));
                    assert forall|e: int, o: int| #[trigger] located(es, index as int, e, o) implies e == eidx && o == offset by {
                        lemma_located_unique(es, index as int, e, o, eidx as int, offset as int);
                    }
                }
            }
            r
        } else {
            let r = self.insert_inside(eidx, offset, text, n, replica);
            proof {
                if r is Ok {
                    lemma_text_of_splice(es, eidx as int, eidx + 1, Seq::<Element>::empty());
                    let e_old = es[eidx as int];
                    assert(es.subrange(eidx as int, eidx + 1) =~= seq![e_old]);
                    lemma_text_of_one(e_old);
                    let left = text_of(es.subrange(0, eidx as int));
                    let right = text_of(es.subrange(eidx + 1, es.len() as int));
                    let et = e_old.text@;
                    assert(old_text =~= left + et + right);
                    assert(et =~= et.subrange(0, offset as int) + et.subrange(offset as int, et.len() as int));
                    assert(old_text.subrange(0, index as int) =~= left + et.subrange(0, offset as int));
                    assert(old_text.subrange(index as int, old_text.len() as int) =~= et.subrange(offset as int, et.len() as int) + right);
                    assert(self.text() =~= old_text.subrange(0, index as int) + t + old_text.subrange(index as int, old_text.len() as int));
                    let op = r->Ok_0;
                    assert(replaced_run(es, self.elements@, eidx as int, eidx + 1, op));
                    assert forall|e: int, o: int| #[trigger] located(es, index as int, e, o) implies e == eidx && o == offset by {
                        lemma_located_unique(es, index as int, e, o, eidx as int, offset as int);
                    }
                }
            }
            r
        }
    }

    /// The string's text, as one `String`.
    pub fn raw_string(&self) -> (s: String)
        requires
            self.wf(),
        ensures
            s@ == self.text(),
    {
        let ghost es = self.elements@;
        let mut raw = String::new();
        let mut i: usize = 0;
        while i < self.elements.len()
            invariant
                es == self.elements@,
                i <= es.len(),
                raw@ == text_of(es.subrange(0, i as int)),
            decreases es.len() - i,
        {
            raw.append(self.elements[i].text.as_str());
            proof {
                assert(es.subrange(0, i + 1).drop_last() =~= es.subrange(0, i as int));
                assert(es.subrange(0, i + 1).last() == es[i as int]);
            }
            i = i + 1;
        }
        proof {
            assert(es.subrange(0, es.len() as int) =~= es);
        }
        raw
    }

    /// Replaces the run `elements[i..j]` by `mid` and sets the length to
    /// `new_len`; returns the update that adds copies of `mid` and takes
    /// away the run.
    fn replace_run(&mut self, i: usize, j: usize, mid: Vec<Element>, new_len: usize) -> (op: UpdateAttributedString)
        requires
            old(self).wf(),
            0 < i <= j < old(self).elements@.len(),
            lengths_match(mid@),
            uids_increase(mid@),
            mid@.len() > 0 ==> uid_lt(&old(self).elements@[i - 1].uid, &mid@[0].uid) && uid_lt(&mid@[mid@.len() - 1].uid, &old(self).elements@[j as int].uid),
            mid@.len() == 0 ==> uid_lt(&old(self).elements@[i - 1].uid, &old(self).elements@[j as int].uid),
            new_len == text_of(splice(old(self).elements@, i as int, j as int, mid@)).len(),
        ensures
            final(self).wf(),
            final(self).elements@ == splice(old(self).elements@, i as int, j as int, mid@),
            replaced_run(old(self).elements@, final(self).elements@, i as int, j as int, op),
            crate::op::remote::same_elements(mid@, op.inserts@),
    {
        let ghost es = self.elements@;
        proof {
            lemma_splice_wf(es, i as int, j as int, mid@);
        }
        let mut deletes: Vec<Element> = Vec::new();
        let mut k: usize = i;
        while k < j
            invariant
                i <= k <= j,
                j < es.len(),
                self.elements@ == es.subrange(0, i as int) + es.subrange(k as int, es.len() as int),
                deletes@ == es.subrange(i as int, k as int),
            decreases j - k,
        {
            let e = self.elements.remove(i);
            proof {
                assert(e == es[k as int]);
            }
            deletes.push(e);
            k = k + 1;
            proof {
                assert(self.elements@ =~= es.subrange(0, i as int) + es.subrange(k as int, es.len() as int));
                assert(deletes@ =~= es.subrange(i as int, k as int));
            }
        }
        let ghost m = mid@;
        let mut inserts: Vec<Element> = Vec::new();
        let mut mid = mid;
        let mut p: usize = 0;
        while mid.len() > 0
            invariant
                p + mid@.len() == m.len(),
                mid@ == m.subrange(p as int, m.len() as int),
                0 < i <= j < es.len(),
                i + p <= self.elements@.len(),
                self.elements@ == es.subrange(0, i as int) + m.subrange(0, p as int) + es.subrange(j as int, es.len() as int),
                inserts@.len() == p,
                forall|x: int| 0 <= x < p ==> crate::attributed_string::element::elt_same(#[trigger] m[x], inserts@[x]),
            decreases mid.len(),
        {
            let e = mid.remove(0);
            proof {
                assert(e == m[p as int]);
                assert(self.elements@.len() == self.elements.len());
            }
            inserts.push(e.clone());
            self.elements.insert(i + p, e);
            p = p + 1;
            proof {
                assert(mid@ =~= m.subrange(p as int, m.len() as int));
                assert(self.elements@ =~= es.subrange(0, i as int) + m.subrange(0, p as int) + es.subrange(j as int, es.len() as int));
            }
        }
        proof {
            assert(m.subrange(0, m.len() as int) =~= m);
            assert(self.elements@ =~= splice(es, i as int, j as int, m));
        }
        self.len = new_len;
        let op = UpdateAttributedString { inserts: inserts, deletes: deletes };
        proof {
            assert(self.elements@.subrange(i as int, i + m.len()) =~= m);
        }
        op
    }

    /// What a deletion leaves of the run `eidx..j`, as new elements made
    /// by `replica` between the run's neighbours: the text of element
    /// `eidx` before `offset` and the last `over` characters of element
    /// `j - 1`, in one element when the run is one element.
    fn deletion_remains(&self, eidx: usize, j: usize, offset: usize, over: usize, replica: &Replica) -> (r: Result<Vec<Element>, Error>)
        requires
            self.wf(),
            1 <= eidx < j < self.elements@.len(),
            offset <= self.elements@[eidx as int].len,
            over <= self.elements@[j - 1].len,
        ensures
            match r {
                Ok(mid) => {
                    let es = self.elements@;
                    &&& text_of(mid@) == es[eidx as int].text@.subrange(0, offset as int) + es[j - 1].text@.subrange(es[j - 1].len - over, es[j - 1].len as int)
                    &&& lengths_match(mid@)
                    &&& uids_increase(mid@)
                    &&& mid@.len() > 0 ==> uid_lt(&es[eidx - 1].uid, &mid@[0].uid) && uid_lt(&mid@[mid@.len() - 1].uid, &es[j as int].uid)
                    &&& remains_as(es, eidx as int, j as int, es[eidx as int].text@.subrange(0, offset as int),
                        es[j - 1].text@.subrange(es[j - 1].len - over, es[j - 1].len as int), *replica, mid@)
                },
                Err(e) => e == Error::OutOfBounds,
            },
            (offset > 0 || over > 0 ==> placeable(self.elements@[eidx - 1].uid.position@, self.elements@[j as int].uid.position@, 1)) ==> r is Ok,
    {
        let ghost es = self.elements@;
        let ghost deep = placeable(es[eidx - 1].uid.position@, es[j as int].uid.position@, 1);
        let ghost kept = es[eidx as int].text@.subrange(0, offset as int) + es[j - 1].text@.subrange(es[j - 1].len - over, es[j - 1].len as int);
        let mut mid: Vec<Element> = Vec::new();
        {
            let prev = &self.elements[eidx - 1];
            let next = &self.elements[j];
            if j == eidx + 1 {
                if offset > 0 || over > 0 {
                    let e = &self.elements[eidx];
                    proof {
                        assert(e.len == e.text@.len());
                    }
                    let (mut t, _) = split_at_char(e.text.as_str(), offset);
                    let (_, post) = split_at_char(e.text.as_str(), e.len - over);
                    t.append(post.as_str());
                    if !Uid::fits_between(&prev.uid, &next.uid) {
                        return Err(Error::OutOfBounds);
                    }
                    let x = Element::between(prev, next, t, replica);
                    proof {
                        if deep {
                            lemma_placeable_step(prev.uid.position@, next.uid.position@, x.uid.position@, 1);
                        }
                    }
                    if !(prev.uid.precedes(&x.uid) && x.uid.precedes(&next.uid)) {
                        return Err(Error::OutOfBounds);
                    }
                    mid.push(x);
                }
                proof {
                    if mid@.len() == 1 {
                        lemma_text_of_one(mid@[0]);
                    } else {
                        assert(kept =~= Seq::<char>::empty());
                        assert(text_of(mid@) =~= Seq::<char>::empty());
                    }
                }
            } else {
                let ghost pre_text = es[eidx as int].text@.subrange(0, offset as int);
                let ghost post_text = es[j - 1].text@.subrange(es[j - 1].len - over, es[j - 1].len as int);
                if offset > 0 {
                    let e = &self.elements[eidx];
                    proof {
                        assert(e.len == e.text@.len());
                    }
                    let (t, _) = split_at_char(e.text.as_str(), offset);
                    if !Uid::fits_between(&prev.uid, &next.uid) {
                        return Err(Error::OutOfBounds);
                    }
                    let x = Element::between(prev, next, t, replica);
                    proof {
                        if deep {
                            lemma_placeable_step(prev.uid.position@, next.uid.position@, x.uid.position@, 1);
                        }
                    }
                    if !(prev.uid.precedes(&x.uid) && x.uid.precedes(&next.uid)) {
                        return Err(Error::OutOfBounds);
                    }
                    mid.push(x);
                }
                if over > 0 {
                    let l = &self.elements[j - 1];
                    proof {
                        assert(l.len == l.text@.len());
                    }
                    let (_, t) = split_at_char(l.text.as_str(), l.len - over);
                    let y = if mid.len() > 0 {
                        let left = &mid[0];
                        if !Uid::fits_between(&left.uid, &next.uid) {
                            return Err(Error::OutOfBounds);
                        }
                        let y = Element::between(left, next, t, replica);
                        proof {
                            if deep {
                                lemma_placeable_step(left.uid.position@, next.uid.position@, y.uid.position@, 0);
                            }
                        }
                        if !(left.uid.precedes(&y.uid) && y.uid.precedes(&next.uid)) {
                            return Err(Error::OutOfBounds);
                        }
                        y
                    } else {
                        if !Uid::fits_between(&prev.uid, &next.uid) {
                            return Err(Error::OutOfBounds);
                        }
                        let y = Element::between(prev, next, t, replica);
                        proof {
                            if deep {
                                lemma_placeable_step(prev.uid.position@, next.uid.position@, y.uid.position@, 1);
                            }
                        }
                        if !(prev.uid.precedes(&y.uid) && y.uid.precedes(&next.uid)) {
                            return Err(Error::OutOfBounds);
                        }
                        y
                    };
                    mid.push(y);
                }
                proof {
                    if mid@.len() == 2 {
                        assert(mid@.drop_last() =~= seq![mid@[0]]);
                        lemma_text_of_one(mid@[0]);
                        assert(text_of(mid@) =~= pre_text + post_text);
                    } else if mid@.len() == 1 {
                        lemma_text_of_one(mid@[0]);
                        if offset > 0 {
                            assert(post_text =~= Seq::<char>::empty());
                        } else {
                            assert(pre_text =~= Seq::<char>::empty());
                        }
                    } else {
                        assert(pre_text =~= Seq::<char>::empty());
                        assert(post_text =~= Seq::<char>::empty());
                        assert(text_of(mid@) =~= Seq::<char>::empty());
                    }
                    assert(kept =~= pre_text + post_text);
                }
            }
        }
        proof {
            if mid@.len() == 2 {
                lemma_uid_order(&mid@[0].uid, &mid@[1].uid, &mid@[1].uid);
            }
        }
        Ok(mid)
    }

    /// Deletes `len` characters from character `index` and returns the
    /// update for other sites: the elements the deletion touches go, and
    /// what is left of them comes back as new elements made by `replica`
    /// (one element when the deletion lies inside one element; else the
    /// text before it and the text after it). Deleting nothing is refused
    /// with `Noop`, a range past the end with `OutOfBounds`;
    /// `OutOfBounds` also comes, with the string unchanged, when no Uid
    /// could be made between the neighbours, which never happens where
    /// they leave room (`delete_room`), nor where whole elements go.
    #[verifier::spinoff_prover]
    #[verifier::rlimit(40)]
    pub fn delete_text(&mut self, index: usize, len: usize, replica: &Replica) -> (r: Result<UpdateAttributedString, Error>)
        requires
            old(self).wf(),
        ensures
            final(self).wf(),
            len == 0 ==> r == Err::<UpdateAttributedString, Error>(Error::Noop) && *final(self) == *old(self),
            len > 0 && index + len > old(self).len ==> r == Err::<UpdateAttributedString, Error>(Error::OutOfBounds) && *final(self) == *old(self),
            len > 0 && index + len <= old(self).len ==> match r {
                Ok(op) => text_deleted(*old(self), *final(self), index as int, len as int, op)
                    && delete_made(old(self).elements@, final(self).elements@, index as int, len as int, *replica, op),
                Err(e) => e == Error::OutOfBounds && *final(self) == *old(self) && !delete_room(old(self).elements@, index as int, len as int),
            },
    {
        if len == 0 {
            return Err(Error::Noop);
        }
        if index > self.len || len > self.len - index {
            return Err(Error::OutOfBounds);
        }
        let ghost es = self.elements@;
        let ghost n = es.len() as int;
        let (eidx, offset) = self.locate(index);
        let target = index + len;
        proof {
            lemma_text_of_prefix_len(es, n);
            assert(es.subrange(0, n) =~= es);
            assert(es[n - 1].len == es[n - 1].text@.len());
            assert(prefix_len(es, n) == prefix_len(es, n - 1) + es[n - 1].len);
        }
        // the run of elements the deletion touches: `eidx..j`
        let mut j: usize = eidx;
        let mut acc: usize = index - offset;
        proof {
            assert(n == self.elements.len());
        }
        while acc < target
            invariant
                es == self.elements@,
                n <= usize::MAX,
                elements_wf(es),
                n == es.len(),
                1 <= eidx <= j < n,
                self.len == prefix_len(es, n),
                prefix_len(es, n - 1) == prefix_len(es, n),
                target <= self.len,
                acc == prefix_len(es, j as int),
                j == eidx ==> acc < target,
                j > eidx ==> prefix_len(es, j - 1) < target,
            decreases n - j,
        {
            proof {
                crate::attributed_string::range::lemma_prefix_len_monotone(es, j + 1, n - 1);
                assert(prefix_len(es, j + 1) == prefix_len(es, j as int) + es[j as int].len);
                if j + 1 >= n - 1 {
                    crate::attributed_string::range::lemma_prefix_len_monotone(es, j as int, n - 1);
                }
            }
            acc = acc + self.elements[j].len;
            j = j + 1;
        }
        let over = acc - target;
        proof {
            assert(prefix_len(es, j as int) == prefix_len(es, j - 1) + es[j - 1].len);
            if j - 1 == eidx {
                assert(offset < es[eidx as int].len);
            }
            crate::attributed_string::range::lemma_prefix_len_monotone(es, j as int, n - 1);
            assert(j < n - 1 || prefix_len(es, j as int) == prefix_len(es, n - 1));
        }
        let ghost kept = es[eidx as int].text@.subrange(0, offset as int) + es[j - 1].text@.subrange(es[j - 1].len - over, es[j - 1].len as int);
        proof {
            assert(offset < es[eidx as int].len);
            assert(deleted_run(es, index as int, len as int, eidx as int, j as int));
        }
        let mid = match self.deletion_remains(eidx, j, offset, over, replica) {
            Ok(mid) => mid,
            Err(e) => return Err(e),
        };
        proof {
            assert(text_of(mid@) == kept);
            lemma_delete_text(es, eidx as int, j as int, offset as int, over as int, index as int, len as int, kept);
            lemma_text_of_splice(es, eidx as int, j as int, mid@);
            if mid@.len() == 2 {
                lemma_uid_order(&mid@[0].uid, &mid@[1].uid, &mid@[1].uid);
            }
            if mid@.len() == 0 {
                lemma_uid_order(&es[eidx - 1].uid, &es[eidx as int].uid, &es[j as int].uid);
            }
        }
        let new_len = self.len - len;
        let ghost old_text = text_of(es);
        let op = self.replace_run(eidx, j, mid, new_len);
        proof {
            assert(self.text() == text_of(splice(es, eidx as int, j as int, mid@)));
            assert(self.text() == old_text.subrange(0, index as int) + old_text.subrange(index + len, old_text.len() as int));
            assert(replaced_run(es, self.elements@, eidx as int, j as int, op));
            assert(es == old(self).elements@);
            assert(old(self).text() == old_text);
            assert(old(self).len == old_text.len());
            assert(self.wf());
            assert(self.text() =~= old(self).text().subrange(0, index as int) + old(self).text().subrange(index + len, old(self).len as int));
            assert(text_deleted(*old(self), *self, index as int, len as int, op));
            let pre = es[eidx as int].text@.subrange(0, offset as int);
            let last = es[j - 1].text@;
            assert(es[j - 1].len == last.len());
            let post = last.subrange(es[j - 1].len - over, es[j - 1].len as int);
            lemma_remains_copies(es, eidx as int, j as int, pre, post, *replica, mid@, op.inserts@);
            assert forall|i1: int, j1: int| #[trigger] deleted_run(es, index as int, len as int, i1, j1) implies i1 == eidx && j1 == j by {
                lemma_deleted_run_unique(es, index as int, len as int, i1, j1, eidx as int, j as int);
            }
            assert(delete_made(es, self.elements@, index as int, len as int, *replica, op));
        }
        Ok(op)
    }

    /// Replaces `len` characters from character `index` by `text`: a
    /// deletion, then an insertion, folded into one update. A range past
    /// the end is refused with `OutOfBounds`, replacing nothing by nothing
    /// with `Noop`. Where no Uid could be made between the neighbours, the
    /// deletion or the insertion is left out; each is made wherever it has
    /// room.
    pub fn replace_text(&mut self, index: usize, len: usize, text: String, replica: &Replica) -> (r: Result<UpdateAttributedString, Error>)
        requires
            old(self).wf(),
            old(self).len + text@.len() <= usize::MAX,
        ensures
            final(self).wf(),
            index + len > old(self).len ==> r == Err::<UpdateAttributedString, Error>(Error::OutOfBounds) && *final(self) == *old(self),
            index + len <= old(self).len && len == 0 && text@.len() == 0 ==> r == Err::<UpdateAttributedString, Error>(Error::Noop) && *final(self) == *old(self),
            index + len <= old(self).len && !(len == 0 && text@.len() == 0) ==> r is Ok && replace_outcome(*old(self), *final(self), index as int, len as int, text@, *replica),
    {
        if index > self.len || len > self.len - index {
            return Err(Error::OutOfBounds);
        }
        let n = text.as_str().unicode_len();
        if len == 0 && n == 0 {
            return Err(Error::Noop);
        }
        let ghost t = text@;
        let mut op1 = match self.delete_text(index, len, replica) {
            Ok(op) => op,
            Err(_) => UpdateAttributedString::empty(),
        };
        let ghost middle = *self;
        let op2 = match self.insert_text(index, text, replica) {
            Ok(op) => op,
            Err(_) => UpdateAttributedString::empty(),
        };
        proof {
            assert(replace_via(*old(self), middle, *self, index as int, len as int, t, *replica));
        }
        op1.merge(op2);
        Ok(op1)
    }

    /// The place of the element with Uid `u`: `Ok` with its index, or
    /// `Err` with the index where it belongs.
    fn find_uid(&self, u: &Uid) -> (r: Result<usize, usize>)
        requires
            self.wf(),
        ensures
            match r {
                Ok(i) => i < self.elements@.len() && uid_same(&self.elements@[i as int].uid, u),
                Err(i) => {
                    &&& i <= self.elements@.len()
                    &&& forall|k: int| 0 <= k < i ==> uid_lt(&(#[trigger] self.elements@[k]).uid, u)
                    &&& forall|k: int| i <= k < self.elements@.len() ==> uid_lt(u, &(#[trigger] self.elements@[k]).uid)
                },
            },
    {
        let ghost es = self.elements@;
        let mut i: usize = 0;
        while i < self.elements.len() && self.elements[i].uid.precedes(u)
            invariant
                es == self.elements@,
                elements_wf(es),
                i <= es.len(),
                forall|k: int| 0 <= k < i ==> uid_lt(&(#[trigger] es[k]).uid, u),
            decreases es.len() - i,
        {
            i = i + 1;
        }
        if i < self.elements.len() && self.elements[i].uid.same(u) {
            return Ok(i);
        }
        proof {
            if i < es.len() {
                lemma_uid_order(&es[i as int].uid, u, u);
                assert(uid_lt(u, &es[i as int].uid));
                assert forall|k: int| i <= k < es.len() implies uid_lt(u, &(#[trigger] es[k]).uid) by {
                    if k > i {
                        assert(uid_lt(&es[i as int].uid, &es[k].uid));
                        lemma_uid_order(u, &es[i as int].uid, &es[k].uid);
                    }
                }
            }
        }
        Err(i)
    }

    /// The number of characters before element `i`.
    fn char_index(&self, i: usize) -> (c: usize)
        requires
            self.wf(),
            i <= self.elements@.len(),
        ensures
            c == prefix_len(self.elements@, i as int),
    {
        let ghost es = self.elements@;
        proof {
            lemma_text_of_prefix_len(es, es.len() as int);
            assert(es.subrange(0, es.len() as int) =~= es);
        }
        let mut c: usize = 0;
        let mut k: usize = 0;
        while k < i
            invariant
                es == self.elements@,
                lengths_match(es),
                i <= es.len(),
                k <= i,
                c == prefix_len(es, k as int),
                prefix_len(es, es.len() as int) == self.len,
            decreases i - k,
        {
            proof {
                crate::attributed_string::range::lemma_prefix_len_monotone(es, k + 1, es.len() as int);
            }
            c = c + self.elements[k].len;
            k = k + 1;
        }
        c
    }
}

/// Replacing characters `[index, index + len)` of `before` by `t` went
/// through the string `m`, the state after the deletion: the deletion was
/// made (as `delete_made` says), or left the string as it was, and it was
/// made wherever it had room; then the insertion into `m` was made (as
/// `insert_made` says), or left `m` as it was, and it was made wherever
/// it had room.
pub open spec fn replace_via(before: AttributedString, m: AttributedString, after: AttributedString, index: int, len: int, t: Seq<char>, replica: Replica) -> bool {
    let deleted = before.text().subrange(0, index) + before.text().subrange(index + len, before.len as int);
    let inserted = m.text().subrange(0, index) + t + m.text().subrange(index, m.len as int);
    &&& m.wf()
    &&& (m == before || (m.text() == deleted && exists|op1: UpdateAttributedString| #[trigger] delete_made(before.elements@, m.elements@, index, len, replica, op1)))
    &&& (after == m || exists|op2: UpdateAttributedString| #[trigger] insert_made(m.elements@, after.elements@, index, t, replica, op2))
    &&& (len > 0 && delete_room(before.elements@, index, len) ==> m.text() == deleted)
    &&& (after == m || after.text() == inserted)
    &&& (t.len() > 0 && insert_room(m.elements@, index) ==> after.text() == inserted)
}

/// What replacing characters `[index, index + len)` of `before` by `t`
/// leaves: the deletion, then the insertion, each made wherever it had
/// room (see `replace_via`).
pub open spec fn replace_outcome(before: AttributedString, after: AttributedString, index: int, len: int, t: Seq<char>, replica: Replica) -> bool {
    exists|m: AttributedString| #[trigger] replace_via(before, m, after, index, len, t, replica)
}

/// Some element of `s` has the Uid, length and text of `x`.
pub open spec fn has_match(s: Seq<Element>, x: Element) -> bool {
    exists|k: int| 0 <= k < s.len() && elt_same(x, #[trigger] s[k])
}

/// What executing `op` from another site leaves of elements `before`:
/// only elements it does not take away (by Uid), copies of elements it
/// adds, and the markers; every element it does not take away; and each
/// element it adds, by Uid, where that falls between the markers.
pub open spec fn remote_applied(before: Seq<Element>, after: Seq<Element>, op: UpdateAttributedString) -> bool {
    &&& forall|x: Element| #[trigger] after.contains(x) ==>
        (before.contains(x) && !holds_uid(op.deletes@, x.uid)) || has_match(op.inserts@, x)
        || x == before[0] || x == before[before.len() - 1]
    &&& forall|x: Element| #[trigger] before.contains(x) && !holds_uid(op.deletes@, x.uid) ==> after.contains(x)
    &&& forall|k: int| 0 <= k < op.inserts@.len() ==> holds_uid(after, (#[trigger] op.inserts@[k]).uid)
        || !interior_uid(before, op.inserts@[k].uid)
}

/// Some element of `s` has Uid `u`.
pub open spec fn holds_uid(s: Seq<Element>, u: Uid) -> bool {
    exists|k: int| 0 <= k < s.len() && uid_same(&(#[trigger] s[k]).uid, &u)
}

/// `u` comes after the start marker and before the end marker of `es`.
pub open spec fn interior_uid(es: Seq<Element>, u: Uid) -> bool {
    uid_lt(&es[0].uid, &u) && uid_lt(&u, &es[es.len() - 1].uid)
}

/// Uids in order are different.
proof fn lemma_uid_lt_not_same(a: Uid, b: Uid)
    ensures
        uid_lt(&a, &b) ==> !uid_same(&a, &b),
{
    lemma_uid_order(&a, &a, &a);
}

/// In strictly increasing Uids, only the element at `i` has its Uid.
proof fn lemma_only_one_with_uid(es: Seq<Element>, i: int, e: Element)
    requires
        uids_increase(es),
        0 <= i < es.len(),
        es.contains(e),
        e != es[i],
    ensures
        !uid_same(&e.uid, &es[i].uid),
{
    let k = choose|k: int| 0 <= k < es.len() && es[k] == e;
    if k < i {
        lemma_uid_lt_not_same(es[k].uid, es[i].uid);
    } else {
        lemma_uid_lt_not_same(es[i].uid, es[k].uid);
    }
}

/// The text of a sequence is its first element's text, then the rest's.
proof fn lemma_text_of_first(s: Seq<Element>)
    requires
        s.len() > 0,
    ensures
        text_of(s) == s[0].text@ + text_of(s.drop_first()),
{
    lemma_text_of_add(seq![s[0]], s.drop_first());
    assert(seq![s[0]] + s.drop_first() =~= s);
    lemma_text_of_one(s[0]);
}

/// What a remote update sees of an element: its Uid (position, site id,
/// counter), its length and its text.
pub type ElementView = (Seq<u64>, u32, u32, usize, Seq<char>);

/// An edit of the local text: `(true, index, n, text)` inserts `text`
/// (of `n` characters) at character `index`; `(false, index, len, _)`
/// deletes `len` characters from character `index`.
pub type TextEdit = (bool, int, int, Seq<char>);

/// The view of an element.
pub open spec fn element_view(e: Element) -> ElementView {
    (e.uid.position@, e.uid.site_id, e.uid.counter, e.len, e.text@)
}

/// The views of a run of elements.
pub open spec fn views(es: Seq<Element>) -> Seq<ElementView> {
    es.map_values(|e: Element| element_view(e))
}

/// The Uid order on views.
pub open spec fn view_lt(a: ElementView, b: ElementView) -> bool {
    ||| crate::sequence::uid::position_lt(a.0, b.0)
    ||| (a.0 == b.0 && (a.1 < b.1 || (a.1 == b.1 && a.2 < b.2)))
}

/// The same Uid.
pub open spec fn same_place(a: ElementView, b: ElementView) -> bool {
    a.0 == b.0 && a.1 == b.1 && a.2 == b.2
}

/// The number of characters in the first `n` views, by their lengths.
pub open spec fn view_prefix(s: Seq<ElementView>, n: int) -> nat
    decreases n,
{
    if n <= 0 || s.len() < n {
        0
    } else {
        view_prefix(s, n - 1) + s[n - 1].3 as nat
    }
}

/// The deletion of `len` characters from character `index`.
pub open spec fn edit_delete(index: int, len: int) -> TextEdit {
    (false, index, len, Seq::empty())
}

/// The insertion of `text` at character `index`.
pub open spec fn edit_insert(index: int, text: Seq<char>) -> TextEdit {
    (true, index, text.len() as int, text)
}

/// The edit that a local operation reports (text edits only).
pub open spec fn edit_of(op: LocalOp) -> TextEdit {
    match op {
        LocalOp::DeleteText(d) => edit_delete(d.index as int, d.len as int),
        LocalOp::InsertText(i) => edit_insert(i.index as int, i.text@),
        _ => (false, -1, -1, Seq::empty()),
    }
}

/// The edits of an optional local operation.
pub open spec fn edits_of(r: Option<LocalOp>) -> Seq<TextEdit> {
    match r {
        Some(op) => seq![edit_of(op)],
        None => Seq::empty(),
    }
}

/// View `i` of `s`, not a marker, has the Uid of `v`.
pub open spec fn interior_match(s: Seq<ElementView>, v: ElementView, i: int) -> bool {
    0 < i < s.len() - 1 && same_place(s[i], v)
}

/// Executing the removal of `d` on views `s`: the element (not a marker)
/// with `d`'s Uid goes, reported as the deletion of `d.len` characters
/// where it stood; without one nothing happens.
pub open spec fn delete_step(s: Seq<ElementView>, d: Element) -> (Seq<ElementView>, Seq<TextEdit>) {
    let v = element_view(d);
    if exists|i: int| #[trigger] interior_match(s, v, i) {
        let i = choose|i: int| #[trigger] interior_match(s, v, i);
        (s.remove(i), seq![edit_delete(view_prefix(s, i) as int, d.len as int)])
    } else {
        (s, Seq::empty())
    }
}

/// `v` belongs at place `i` of `s`: after every view before it and
/// before every view from it on.
pub open spec fn insert_place(s: Seq<ElementView>, v: ElementView, i: int) -> bool {
    &&& 0 <= i <= s.len()
    &&& forall|k: int| 0 <= k < i ==> view_lt(#[trigger] s[k], v)
    &&& forall|k: int| i <= k < s.len() ==> view_lt(v, #[trigger] s[k])
}

/// Executing the addition of `e` on views `s`: where its Uid is new and
/// falls between the markers, it goes in at its place, reported as the
/// insertion of its text where it stands; otherwise nothing happens.
pub open spec fn insert_step(s: Seq<ElementView>, e: Element) -> (Seq<ElementView>, Seq<TextEdit>) {
    let v = element_view(e);
    if exists|i: int| #[trigger] insert_place(s, v, i) {
        let i = choose|i: int| #[trigger] insert_place(s, v, i);
        if 0 < i < s.len() {
            (s.insert(i, v), seq![edit_insert(view_prefix(s, i) as int, e.text@)])
        } else {
            (s, Seq::empty())
        }
    } else {
        (s, Seq::empty())
    }
}

/// The removals of `dels`, in turn, and their edits.
pub open spec fn deletes_applied(s: Seq<ElementView>, dels: Seq<Element>) -> (Seq<ElementView>, Seq<TextEdit>)
    decreases dels.len(),
{
    if dels.len() == 0 {
        (s, Seq::empty())
    } else {
        let prev = deletes_applied(s, dels.drop_last());
        let step = delete_step(prev.0, dels.last());
        (step.0, prev.1 + step.1)
    }
}

/// The additions of `ins`, in turn, and their edits.
pub open spec fn inserts_applied(s: Seq<ElementView>, ins: Seq<Element>) -> (Seq<ElementView>, Seq<TextEdit>)
    decreases ins.len(),
{
    if ins.len() == 0 {
        (s, Seq::empty())
    } else {
        let prev = inserts_applied(s, ins.drop_last());
        let step = insert_step(prev.0, ins.last());
        (step.0, prev.1 + step.1)
    }
}

/// Executing `op` on elements `es`: its removals, then its additions; the
/// views left and the edits reported.
pub open spec fn remote_edits(es: Seq<Element>, op: UpdateAttributedString) -> (Seq<ElementView>, Seq<TextEdit>) {
    let d = deletes_applied(views(es), op.deletes@);
    let i = inserts_applied(d.0, op.inserts@);
    (i.0, d.1 + i.1)
}

/// The views of the two markers of an empty string.
pub open spec fn marker_views() -> Seq<ElementView> {
    seq![(seq![0u64], 0u32, 0u32, 0usize, Seq::<char>::empty()), (seq![0xf_ffffu64], u32::MAX, u32::MAX, 0usize, Seq::<char>::empty())]
}

/// Prefix lengths read the same on views.
proof fn lemma_view_prefix(es: Seq<Element>, n: int)
    ensures
        view_prefix(views(es), n) == prefix_len(es, n),
    decreases n,
{
    if n > 0 && es.len() >= n {
        lemma_view_prefix(es, n - 1);
    }
}

impl AttributedString {
    /// Takes away element `i` (not a marker) and returns the number of
    /// characters before it.
    fn remove_element(&mut self, i: usize) -> (ci: usize)
        requires
            old(self).wf(),
            0 < i < old(self).elements@.len() - 1,
        ensures
            final(self).wf(),
            final(self).elements@ == old(self).elements@.remove(i as int),
            final(self).len == old(self).len - old(self).elements@[i as int].len,
            ci == prefix_len(old(self).elements@, i as int),
    {
        let ghost before = self.elements@;
        let ghost n = before.len() as int;
        let ci = self.char_index(i);
        proof {
            lemma_text_of_prefix_len(before, n);
            assert(before.subrange(0, n) =~= before);
            crate::attributed_string::range::lemma_prefix_len_monotone(before, i + 1, n);
            lemma_uid_order(&before[i - 1].uid, &before[i as int].uid, &before[i + 1].uid);
            lemma_text_of_splice(before, i as int, i + 1, Seq::<Element>::empty());
            lemma_text_of_prefix_len(before, i as int);
            lemma_text_of_prefix_len(before, i + 1);
            assert(before.subrange(0, i + 1) =~= before.subrange(0, i as int) + before.subrange(i as int, i + 1));
            lemma_text_of_add(before.subrange(0, i as int), before.subrange(i as int, i + 1));
            assert(text_of(Seq::<Element>::empty()) =~= Seq::<char>::empty());
            assert(n == self.elements.len());
        }
        let new_len = self.len - self.elements[i].len;
        let next = i + 1;
        let _ = self.replace_run(i, next, Vec::new(), new_len);
        proof {
            assert(self.elements@ =~= before.remove(i as int));
        }
        ci
    }

    /// Takes away the element with the Uid of `d`, where it is here and is
    /// not a marker, and returns the deletion of its characters.
    fn remove_remote(&mut self, d: &Element) -> (r: Option<LocalOp>)
        requires
            old(self).wf(),
        ensures
            final(self).wf(),
            final(self).len <= old(self).len,
            final(self).elements@[0] == old(self).elements@[0],
            final(self).elements@[final(self).elements@.len() - 1] == old(self).elements@[old(self).elements@.len() - 1],
            forall|e: Element| final(self).elements@.contains(e) ==> old(self).elements@.contains(e),
            forall|e: Element| #[trigger] final(self).elements@.contains(e) && e != old(self).elements@[0]
                && e != old(self).elements@[old(self).elements@.len() - 1] ==> !uid_same(&e.uid, &d.uid),
            forall|e: Element| #[trigger] old(self).elements@.contains(e) && !uid_same(&e.uid, &d.uid) ==> final(self).elements@.contains(e),
            views(final(self).elements@) == delete_step(views(old(self).elements@), *d).0,
            edits_of(r) == delete_step(views(old(self).elements@), *d).1,
    {
        let ghost before = self.elements@;
        let ghost n = before.len() as int;
        let ghost vb = views(before);
        let ghost v = element_view(*d);
        proof {
            assert forall|a: int, b: int| #[trigger] interior_match(vb, v, a) && #[trigger] interior_match(vb, v, b) implies a == b by {
                if a < b {
                    lemma_uid_lt_not_same(before[a].uid, before[b].uid);
                } else if b < a {
                    lemma_uid_lt_not_same(before[b].uid, before[a].uid);
                }
            }
        }
        match self.find_uid(&d.uid) {
            Ok(i) => {
                if 0 < i && i < self.elements.len() - 1 {
                    let ci = self.remove_element(i);
                    proof {
                        let after = self.elements@;
                        assert forall|e: Element| after.contains(e) implies before.contains(e) by {
                            let k = choose|k: int| 0 <= k < after.len() && after[k] == e;
                            if k < i { assert(before[k] == e); } else { assert(before[k + 1] == e); }
                        }
                        assert forall|e: Element| #[trigger] after.contains(e) && e != before[0] && e != before[n - 1] implies !uid_same(&e.uid, &d.uid) by {
                            let k = choose|k: int| 0 <= k < after.len() && after[k] == e;
                            let kk = if k < i { k } else { k + 1 };
                            assert(before[kk] == e);
                            if kk < i { lemma_uid_lt_not_same(before[kk].uid, before[i as int].uid); }
                            else { lemma_uid_lt_not_same(before[i as int].uid, before[kk].uid); }
                        }
                        assert forall|e: Element| #[trigger] before.contains(e) && !uid_same(&e.uid, &d.uid) implies after.contains(e) by {
                            let k = choose|k: int| 0 <= k < before.len() && before[k] == e;
                            if k < i { assert(after[k] == e); } else if k > i { assert(after[k - 1] == e); }
                        }
                    }
                    proof {
                        assert(interior_match(vb, v, i as int));
                        assert(views(self.elements@) =~= vb.remove(i as int));
                        lemma_view_prefix(before, i as int);
                    }
                    return Some(LocalOp::DeleteText(DeleteText::new(ci, d.len)));
                }
                proof {
                    assert forall|k: int| !#[trigger] interior_match(vb, v, k) by {
                        if interior_match(vb, v, k) {
                            assert(interior_match(vb, v, k));
                            if k < i {
                                lemma_uid_lt_not_same(before[k].uid, before[i as int].uid);
                            } else if k > i {
                                lemma_uid_lt_not_same(before[i as int].uid, before[k].uid);
                            }
                        }
                    }
                }
                proof {
                    assert forall|e: Element| #[trigger] before.contains(e) && e != before[0] && e != before[n - 1] implies !uid_same(&e.uid, &d.uid) by {
                        lemma_only_one_with_uid(before, i as int, e);
                    }
                }
                None
            },
            Err(i) => {
                proof {
                    assert forall|e: Element| #[trigger] before.contains(e) implies !uid_same(&e.uid, &d.uid) by {
                        let k = choose|k: int| 0 <= k < before.len() && before[k] == e;
                        if k < i { lemma_uid_lt_not_same(e.uid, d.uid); }
                        else { lemma_uid_lt_not_same(d.uid, e.uid); }
                    }
                    assert forall|k: int| !#[trigger] interior_match(vb, v, k) by {
                        if interior_match(vb, v, k) {
                            assert(before.contains(before[k]));
                        }
                    }
                }
                None
            },
        }
    }

    /// Adds a copy of `e` at its place by Uid, where its Uid is new and
    /// falls between the markers, and returns the insertion of its text.
    fn insert_remote(&mut self, e: &Element) -> (r: Option<LocalOp>)
        requires
            old(self).wf(),
            e.len == e.text@.len(),
            old(self).len + e.len <= usize::MAX,
        ensures
            final(self).wf(),
            final(self).len <= old(self).len + e.len,
            final(self).elements@[0] == old(self).elements@[0],
            final(self).elements@[final(self).elements@.len() - 1] == old(self).elements@[old(self).elements@.len() - 1],
            forall|x: Element| #[trigger] final(self).elements@.contains(x) ==> old(self).elements@.contains(x) || elt_same(x, *e),
            forall|x: Element| #[trigger] old(self).elements@.contains(x) ==> final(self).elements@.contains(x),
            holds_uid(final(self).elements@, e.uid) || !interior_uid(old(self).elements@, e.uid),
            views(final(self).elements@) == insert_step(views(old(self).elements@), *e).0,
            edits_of(r) == insert_step(views(old(self).elements@), *e).1,
    {
        let ghost before = self.elements@;
        let ghost n = before.len() as int;
        let ghost vb = views(before);
        let ghost v = element_view(*e);
        proof {
            assert forall|a: int, b: int| #[trigger] insert_place(vb, v, a) && #[trigger] insert_place(vb, v, b) implies a == b by {
                if a < b {
                    assert(view_lt(vb[a], v));
                    assert(view_lt(v, vb[a]));
                    lemma_uid_order(&before[a].uid, &e.uid, &e.uid);
                } else if b < a {
                    assert(view_lt(vb[b], v));
                    assert(view_lt(v, vb[b]));
                    lemma_uid_order(&before[b].uid, &e.uid, &e.uid);
                }
            }
        }
        match self.find_uid(&e.uid) {
            Ok(i) => {
                proof {
                    assert(uid_same(&before[i as int].uid, &e.uid));
                    assert forall|k: int| !#[trigger] insert_place(vb, v, k) by {
                        if insert_place(vb, v, k) {
                            crate::sequence::uid::lemma_position_lt_irreflexive(e.uid.position@);
                            if i < k {
                                assert(view_lt(vb[i as int], v));
                            } else {
                                assert(view_lt(v, vb[i as int]));
                            }
                        }
                    }
                }
                None
            },
            Err(i) => {
                if 0 < i && i < self.elements.len() {
                    let ci = self.char_index(i);
                    let copy = e.clone();
                    let text = e.text.clone();
                    let ghost mid = seq![copy];
                    proof {
                        lemma_text_of_splice(before, i as int, i as int, mid);
                        lemma_text_of_one(copy);
                        assert(before.subrange(i as int, i as int) =~= Seq::<Element>::empty());
                        assert(text_of(Seq::<Element>::empty()) =~= Seq::<char>::empty());
                        lemma_text_of_splice(before, i as int, i as int, Seq::<Element>::empty());
                    }
                    let mut mid_vec: Vec<Element> = Vec::new();
                    mid_vec.push(copy);
                    let new_len = self.len + e.len;
                    let _ = self.replace_run(i, i, mid_vec, new_len);
                    proof {
                        let after = self.elements@;
                        assert(after =~= before.insert(i as int, mid[0]));
                        assert forall|x: Element| #[trigger] after.contains(x) implies before.contains(x) || elt_same(x, *e) by {
                            let k = choose|k: int| 0 <= k < after.len() && after[k] == x;
                            if k < i { assert(before[k] == x); } else if k > i { assert(before[k - 1] == x); }
                        }
                        assert forall|x: Element| #[trigger] before.contains(x) implies after.contains(x) by {
                            let k = choose|k: int| 0 <= k < before.len() && before[k] == x;
                            if k < i { assert(after[k] == x); } else { assert(after[k + 1] == x); }
                        }
                        assert(uid_same(&after[i as int].uid, &e.uid));
                        assert(insert_place(vb, v, i as int));
                        assert(element_view(mid[0]) == v);
                        assert(views(after) =~= vb.insert(i as int, v));
                        lemma_view_prefix(before, i as int);
                    }
                    return Some(LocalOp::InsertText(InsertText::new(ci, text)));
                }
                proof {
                    assert(insert_place(vb, v, i as int));
                    if i == 0 {
                        lemma_uid_order(&before[0].uid, &e.uid, &e.uid);
                    } else {
                        lemma_uid_order(&e.uid, &before[n - 1].uid, &e.uid);
                    }
                }
                None
            },
        }
    }

    /// Applies an update from another site and returns its effects here,
    /// deletions first: each element it takes away that is here (and not
    /// a marker) goes, reported as the deletion of its characters; then
    /// each element it adds whose Uid is new and falls between the
    /// markers goes in at its place by Uid, reported as the insertion of
    /// its text.
    pub fn execute_remote(&mut self, op: &UpdateAttributedString) -> (r: Vec<LocalOp>)
        requires
            old(self).wf(),
            lengths_match(op.inserts@),
            old(self).len + text_of(op.inserts@).len() <= usize::MAX,
        ensures
            final(self).wf(),
            r@.len() <= op.deletes@.len() + op.inserts@.len(),
            remote_applied(old(self).elements@, final(self).elements@, *op),
            views(final(self).elements@) == remote_edits(old(self).elements@, *op).0,
            r@.map_values(|o: LocalOp| edit_of(o)) == remote_edits(old(self).elements@, *op).1,
    {
        let ghost es0 = self.elements@;
        let ghost n0 = es0.len() as int;
        let ghost dels = op.deletes@;
        let ghost ins = op.inserts@;
        let mut local_ops: Vec<LocalOp> = Vec::new();
        let mut k: usize = 0;
        while k < op.deletes.len()
            invariant
                self.wf(),
                n0 == es0.len(),
                dels == op.deletes@,
                k <= dels.len(),
                local_ops@.len() <= k,
                self.len <= run_text_len(es0),
                self.elements@[0] == es0[0],
                self.elements@[self.elements@.len() - 1] == es0[n0 - 1],
                forall|x: Element| #[trigger] self.elements@.contains(x) ==> es0.contains(x),
                forall|x: Element| #[trigger] self.elements@.contains(x) && x != es0[0] && x != es0[n0 - 1] ==> !holds_uid(dels.subrange(0, k as int), x.uid),
                forall|x: Element| #[trigger] es0.contains(x) && !holds_uid(dels.subrange(0, k as int), x.uid) ==> self.elements@.contains(x),
                views(self.elements@) == deletes_applied(views(es0), dels.subrange(0, k as int)).0,
                local_ops@.map_values(|o: LocalOp| edit_of(o)) == deletes_applied(views(es0), dels.subrange(0, k as int)).1,
            decreases dels.len() - k,
        {
            let ghost before = self.elements@;
            let ghost ops_before = local_ops@;
            let done = self.remove_remote(&op.deletes[k]);
            if let Some(lop) = done {
                local_ops.push(lop);
            }
            proof {
                assert(dels.subrange(0, k + 1).drop_last() =~= dels.subrange(0, k as int));
                assert(dels.subrange(0, k + 1).last() == dels[k as int]);
                assert(local_ops@.map_values(|o: LocalOp| edit_of(o)) =~= ops_before.map_values(|o: LocalOp| edit_of(o)) + edits_of(done));
            }
            proof {
                let d = dels[k as int];
                let pre = dels.subrange(0, k as int);
                let cur = dels.subrange(0, k + 1);
                assert forall|u: Uid| holds_uid(cur, u) <==> (holds_uid(pre, u) || uid_same(&d.uid, &u)) by {
                    if holds_uid(cur, u) {
                        let m = choose|m: int| 0 <= m < cur.len() && uid_same(&(#[trigger] cur[m]).uid, &u);
                        if m < k { assert(pre[m] == cur[m]); }
                    }
                    if holds_uid(pre, u) {
                        let m = choose|m: int| 0 <= m < pre.len() && uid_same(&(#[trigger] pre[m]).uid, &u);
                        assert(cur[m] == pre[m]);
                    }
                    if uid_same(&d.uid, &u) {
                        assert(cur[k as int] == d);
                    }
                }
                assert forall|x: Element| #[trigger] self.elements@.contains(x) && x != es0[0] && x != es0[n0 - 1] implies !holds_uid(cur, x.uid) by {
                    assert(before.contains(x));
                }
                assert forall|x: Element| #[trigger] es0.contains(x) && !holds_uid(cur, x.uid) implies self.elements@.contains(x) by {
                    assert(before.contains(x));
                }
            }
            k = k + 1;
        }
        proof {
            assert(dels.subrange(0, dels.len() as int) =~= dels);
            assert(ins.subrange(0, ins.len() as int) =~= ins);
            assert(self.len <= old(self).len);
        }
        let mut m: usize = 0;
        while m < op.inserts.len()
            invariant
                self.wf(),
                n0 == es0.len(),
                ins == op.inserts@,
                lengths_match(ins),
                m <= ins.len(),
                local_ops@.len() <= dels.len() + m,
                self.len + text_of(ins.subrange(m as int, ins.len() as int)).len() <= usize::MAX,
                self.elements@[0] == es0[0],
                self.elements@[self.elements@.len() - 1] == es0[n0 - 1],
                forall|x: Element| #[trigger] self.elements@.contains(x) ==>
                    (es0.contains(x) && !holds_uid(dels, x.uid)) || has_match(ins.subrange(0, m as int), x) || x == es0[0] || x == es0[n0 - 1],
                forall|x: Element| #[trigger] es0.contains(x) && !holds_uid(dels, x.uid) ==> self.elements@.contains(x),
                forall|j: int| 0 <= j < m ==> holds_uid(self.elements@, (#[trigger] ins[j]).uid) || !interior_uid(es0, ins[j].uid),
                views(self.elements@) == inserts_applied(deletes_applied(views(es0), dels).0, ins.subrange(0, m as int)).0,
                local_ops@.map_values(|o: LocalOp| edit_of(o)) == deletes_applied(views(es0), dels).1 + inserts_applied(deletes_applied(views(es0), dels).0, ins.subrange(0, m as int)).1,
            decreases ins.len() - m,
        {
            let ghost before = self.elements@;
            let ghost ops_before = local_ops@;
            proof {
                let rest = ins.subrange(m as int, ins.len() as int);
                lemma_text_of_first(rest);
                assert(rest[0] == ins[m as int]);
                assert(ins[m as int].len == ins[m as int].text@.len());
                assert(rest.drop_first() =~= ins.subrange(m + 1, ins.len() as int));
            }
            let done = self.insert_remote(&op.inserts[m]);
            if let Some(lop) = done {
                local_ops.push(lop);
            }
            proof {
                assert(ins.subrange(0, m + 1).drop_last() =~= ins.subrange(0, m as int));
                assert(ins.subrange(0, m + 1).last() == ins[m as int]);
                assert(local_ops@.map_values(|o: LocalOp| edit_of(o)) =~= ops_before.map_values(|o: LocalOp| edit_of(o)) + edits_of(done));
                let dd = deletes_applied(views(es0), dels);
                let pa = inserts_applied(dd.0, ins.subrange(0, m as int));
                let st = insert_step(pa.0, ins[m as int]);
                assert(dd.1 + pa.1 + st.1 =~= dd.1 + (pa.1 + st.1));
            }
            proof {
                let e = ins[m as int];
                let pre = ins.subrange(0, m as int);
                let cur = ins.subrange(0, m + 1);
                assert forall|x: Element| has_match(pre, x) implies has_match(cur, x) by {
                    let j = choose|j: int| 0 <= j < pre.len() && elt_same(x, #[trigger] pre[j]);
                    assert(cur[j] == pre[j]);
                }
                assert forall|x: Element| #[trigger] self.elements@.contains(x) implies
                    (es0.contains(x) && !holds_uid(dels, x.uid)) || has_match(cur, x) || x == es0[0] || x == es0[n0 - 1] by {
                    if !before.contains(x) {
                        assert(elt_same(x, e));
                        assert(cur[m as int] == e);
                        assert(elt_same(x, cur[m as int]));
                    }
                }
                assert forall|j: int| 0 <= j < m + 1 implies holds_uid(self.elements@, (#[trigger] ins[j]).uid) || !interior_uid(es0, ins[j].uid) by {
                    if j == m {
                        assert(before[0] == es0[0]);
                        assert(before[before.len() - 1] == es0[n0 - 1]);
                        let u = ins[j].uid;
                        assert(before[0].uid == es0[0].uid);
                        assert(before[before.len() - 1].uid == es0[n0 - 1].uid);
                        assert(uid_lt(&before[0].uid, &u) == uid_lt(&es0[0].uid, &u));
                        assert(uid_lt(&u, &before[before.len() - 1].uid) == uid_lt(&u, &es0[n0 - 1].uid));
                        if !holds_uid(self.elements@, u) {
                            assert(!interior_uid(before, u));
                        }
                    }
                    if j < m && holds_uid(before, ins[j].uid) {
                        let q = choose|q: int| 0 <= q < before.len() && uid_same(&(#[trigger] before[q]).uid, &ins[j].uid);
                        assert(before.contains(before[q]));
                        assert(self.elements@.contains(before[q]));
                        let p = choose|p: int| 0 <= p < self.elements@.len() && self.elements@[p] == before[q];
                        assert(uid_same(&self.elements@[p].uid, &ins[j].uid));
                    }
                }
            }
            m = m + 1;
        }
        proof {
            assert(ins.subrange(0, ins.len() as int) =~= ins);
        }
        local_ops
    }
}

/// The number of characters that a run of elements holds.
pub open spec fn run_text_len(es: Seq<Element>) -> nat {
    text_of(es).len()
}

/// The number of bytes that UTF-8 takes for `c`.
pub open spec fn utf8_len(c: char) -> nat {
    if (c as u32) < 0x80 {
        1
    } else if (c as u32) < 0x800 {
        2
    } else if (c as u32) < 0x10000 {
        3
    } else {
        4
    }
}

/// The number of bytes that UTF-8 takes for `s`.
pub open spec fn utf8_bytes(s: Seq<char>) -> nat
    decreases s.len(),
{
    if s.len() == 0 {
        0
    } else {
        utf8_bytes(s.drop_last()) + utf8_len(s.last())
    }
}

/// The number of bytes that UTF-8 takes for `c`.
fn char_utf8_len(c: char) -> (n: usize)
    ensures
        n == utf8_len(c),
{
    let v = c as u32;
    if v < 0x80 {
        1
    } else if v < 0x800 {
        2
    } else if v < 0x10000 {
        3
    } else {
        4
    }
}

/// A scan that has passed `acc` characters counts the rest of the way.
proof fn lemma_bound_from_shift(es: Seq<Element>, c: int, i: int, acc: int)
    ensures
        bound_from(es, c, i, acc) == (bound_from(es, c - acc, i, 0).0, bound_from(es, c - acc, i, 0).1),
    decreases es.len() - i,
{
    if 0 <= i < es.len() && !(acc + es[i].len > c) && !is_end_uid(es[i].uid) {
        lemma_bound_from_shift(es, c, i + 1, acc + es[i].len);
        lemma_bound_from_shift(es, c - acc, i + 1, es[i].len as int);
    }
}

/// Element `k` ends at or before character `c` and is not the end marker.
pub open spec fn passed(es: Seq<Element>, k: int, c: int) -> bool {
    prefix_len(es, k + 1) <= c && !is_end_uid(es[k].uid)
}

/// A scan from the start passes, unchanged, the elements that end at or
/// before the character sought.
proof fn lemma_bound_from_skip(es: Seq<Element>, c: int, e0: int)
    requires
        0 <= e0 < es.len(),
        forall|k: int| 0 <= k < e0 ==> #[trigger] passed(es, k, c),
    ensures
        bound_from(es, c, 0, 0) == bound_from(es, c, e0, prefix_len(es, e0) as int),
    decreases e0,
{
    if e0 > 0 {
        lemma_bound_from_skip(es, c, e0 - 1);
        assert(prefix_len(es, e0) == prefix_len(es, e0 - 1) + es[e0 - 1].len);
        assert(passed(es, e0 - 1, c));
    }
}

impl AttributedString {
    /// `i` is the index this string gives for its location: the element
    /// and offset of the character there (see `Bound::new`), and the byte
    /// offset of that character in its element's text.
    pub open spec fn valid_index(&self, i: Index) -> bool {
        &&& i.location <= self.len
        &&& (i.eidx as int, i.cidx as int) == bound_from(self.elements@, i.location as int, 0, 0)
        &&& i.eidx < self.elements@.len()
        &&& i.cidx <= self.elements@[i.eidx as int].text@.len()
        &&& i.bidx == utf8_bytes(self.elements@[i.eidx as int].text@.subrange(0, i.cidx as int))
    }

    /// The index of the place `location` characters in.
    fn index_at(&self, location: usize, from: usize) -> (i: Index)
        requires
            self.wf(),
            location <= self.len,
            from < self.elements@.len(),
            forall|k: int| 0 <= k < from ==> #[trigger] passed(self.elements@, k, location as int),
            4 * self.len <= usize::MAX,
        ensures
            self.valid_index(i),
            i.location == location,
    {
        let ghost es = self.elements@;
        let p = self.char_index(from);
        proof {
            lemma_text_of_prefix_len(es, es.len() as int);
            assert(es.subrange(0, es.len() as int) =~= es);
            crate::attributed_string::range::lemma_prefix_len_monotone(es, from as int, es.len() as int);
            if from > 0 {
                assert(passed(es, from - 1, location as int));
                assert(prefix_len(es, from as int) <= location);
            }
        }
        let b = crate::attributed_string::range::scan(self.elements.as_slice(), from, location - p);
        proof {
            lemma_bound_from_skip(es, location as int, from as int);
            lemma_bound_from_shift(es, location as int, from as int, p as int);
            crate::attributed_string::range::lemma_bound_from_range(es, location - p, from as int, 0);
            assert(es[b.index as int].len == es[b.index as int].text@.len());
            lemma_text_of_prefix_len(es, b.index + 1);
            crate::attributed_string::range::lemma_prefix_len_monotone(es, b.index + 1, es.len() as int);
            assert(prefix_len(es, b.index + 1) == prefix_len(es, b.index as int) + es[b.index as int].len);
        }
        let text = self.elements[b.index].text.as_str();
        let mut bidx: usize = 0;
        let mut k: usize = 0;
        while k < b.offset
            invariant
                es == self.elements@,
                b.index < es.len(),
                text@ == es[b.index as int].text@,
                b.offset <= text@.len(),
                4 * text@.len() <= usize::MAX,
                k <= b.offset,
                bidx == utf8_bytes(text@.subrange(0, k as int)),
                bidx <= 4 * k,
            decreases b.offset - k,
        {
            let c = text.get_char(k);
            proof {
                assert(text@.subrange(0, k + 1).drop_last() =~= text@.subrange(0, k as int));
                assert(text@.subrange(0, k + 1).last() == c);
            }
            bidx = bidx + char_utf8_len(c);
            k = k + 1;
        }
        Index { eidx: b.index, cidx: b.offset, bidx: bidx, location: location }
    }

    /// The index of the string's first character.
    pub fn start_index(&self) -> (i: Index)
        requires
            self.wf(),
            4 * self.len <= usize::MAX,
        ensures
            self.valid_index(i),
            i.location == 0,
    {
        self.index_at(0, 0)
    }

    /// The index `offset` characters after `from`. Past the end of the
    /// text it is refused with `OutOfBounds`.
    pub fn index(&self, from: &Index, offset: usize) -> (r: Result<Index, Error>)
        requires
            self.wf(),
            self.valid_index(*from),
            4 * self.len <= usize::MAX,
        ensures
            from.location + offset > self.len ==> r == Err::<Index, Error>(Error::OutOfBounds),
            from.location + offset <= self.len ==> (r matches Ok(i) && self.valid_index(i) && i.location == from.location + offset),
    {
        if offset > self.len - from.location {
            return Err(Error::OutOfBounds);
        }
        let location = from.location + offset;
        let ghost es = self.elements@;
        proof {
            assert forall|k: int| 0 <= k < from.eidx implies #[trigger] passed(es, k, location as int) by {
                lemma_bound_from_prefix(es, from.location as int, k);
            }
        }
        Ok(self.index_at(location, from.eidx))
    }
}

/// The elements before where a scan from the start stops end at or
/// before the character sought, and none of them is the end marker.
proof fn lemma_bound_from_prefix(es: Seq<Element>, c: int, k: int)
    requires
        0 <= k < bound_from(es, c, 0, 0).0,
        bound_from(es, c, 0, 0).0 < es.len(),
    ensures
        prefix_len(es, k + 1) <= c,
        !is_end_uid(es[k].uid),
{
    lemma_bound_from_prefix_from(es, c, 0, 0, k);
}

proof fn lemma_bound_from_prefix_from(es: Seq<Element>, c: int, i: int, acc: int, k: int)
    requires
        0 <= i <= k < bound_from(es, c, i, acc).0,
        bound_from(es, c, i, acc).0 < es.len(),
        acc == prefix_len(es, i),
    ensures
        prefix_len(es, k + 1) <= c,
        !is_end_uid(es[k].uid),
    decreases es.len() - i,
{
    assert(i < es.len());
    assert(prefix_len(es, i + 1) == prefix_len(es, i) + es[i].len);
    if i < k {
        lemma_bound_from_prefix_from(es, c, i + 1, acc + es[i].len, k);
    }
}

impl AttributedString {
    /// Builds a string from elements: each whose Uid is new and falls
    /// between the markers goes in at its place by Uid.
    pub fn assemble(elements: Vec<Element>) -> (s: Self)
        requires
            lengths_match(elements@),
            text_of(elements@).len() <= usize::MAX,
        ensures
            s.wf(),
            views(s.elements@) == inserts_applied(marker_views(), elements@).0,
            forall|x: Element| #[trigger] s.elements@.contains(x) ==> has_match(elements@, x) || is_start_uid(x.uid) || is_end_uid(x.uid),
            forall|x: Element| #[trigger] s.elements@.contains(x) ==> holds_uid(elements@, x.uid) || is_start_uid(x.uid) || is_end_uid(x.uid),
            forall|k: int| 0 <= k < elements@.len() ==> holds_uid(s.elements@, (#[trigger] elements@[k]).uid)
                || !interior_uid(s.elements@, elements@[k].uid),
    {
        let mut s = AttributedString::new();
        let ghost es0 = s.elements@;
        let ghost ins = elements@;
        proof {
            assert(ins.subrange(0, ins.len() as int) =~= ins);
        }
        let mut m: usize = 0;
        while m < elements.len()
            invariant
                s.wf(),
                ins == elements@,
                es0.len() == 2,
                is_start_uid(es0[0].uid),
                is_end_uid(es0[1].uid),
                lengths_match(ins),
                m <= ins.len(),
                s.len + text_of(ins.subrange(m as int, ins.len() as int)).len() <= usize::MAX,
                s.elements@[0] == es0[0],
                s.elements@[s.elements@.len() - 1] == es0[1],
                forall|x: Element| #[trigger] s.elements@.contains(x) ==> holds_uid(ins.subrange(0, m as int), x.uid) || x == es0[0] || x == es0[1],
                forall|x: Element| #[trigger] s.elements@.contains(x) ==> has_match(ins.subrange(0, m as int), x) || x == es0[0] || x == es0[1],
                forall|j: int| 0 <= j < m ==> holds_uid(s.elements@, (#[trigger] ins[j]).uid) || !interior_uid(es0, ins[j].uid),
                views(s.elements@) == inserts_applied(marker_views(), ins.subrange(0, m as int)).0,
            decreases ins.len() - m,
        {
            let ghost before = s.elements@;
            proof {
                let rest = ins.subrange(m as int, ins.len() as int);
                lemma_text_of_first(rest);
                assert(rest[0] == ins[m as int]);
                assert(ins[m as int].len == ins[m as int].text@.len());
                assert(rest.drop_first() =~= ins.subrange(m + 1, ins.len() as int));
            }
            let _ = s.insert_remote(&elements[m]);
            proof {
                let e = ins[m as int];
                let pre = ins.subrange(0, m as int);
                let cur = ins.subrange(0, m + 1);
                assert(cur.drop_last() =~= pre);
                assert(cur.last() == e);
                assert forall|x: Element| has_match(pre, x) implies has_match(cur, x) by {
                    let j = choose|j: int| 0 <= j < pre.len() && elt_same(x, #[trigger] pre[j]);
                    assert(cur[j] == pre[j]);
                }
                assert forall|x: Element| #[trigger] s.elements@.contains(x) implies has_match(cur, x) || x == es0[0] || x == es0[1] by {
                    if !before.contains(x) {
                        assert(elt_same(x, e));
                        assert(elt_same(x, cur[m as int]));
                    }
                }
                assert forall|u: Uid| holds_uid(pre, u) ==> holds_uid(cur, u) by {
                    if holds_uid(pre, u) {
                        let j = choose|j: int| 0 <= j < pre.len() && uid_same(&(#[trigger] pre[j]).uid, &u);
                        assert(cur[j] == pre[j]);
                    }
                }
                assert forall|x: Element| #[trigger] s.elements@.contains(x) implies holds_uid(cur, x.uid) || x == es0[0] || x == es0[1] by {
                    if !before.contains(x) {
                        assert(elt_same(x, e));
                        assert(cur[m as int] == e);
                        assert(uid_same(&cur[m as int].uid, &x.uid));
                    }
                }
                assert forall|j: int| 0 <= j < m + 1 implies holds_uid(s.elements@, (#[trigger] ins[j]).uid) || !interior_uid(es0, ins[j].uid) by {
                    if j == m {
                        assert(before[0] == es0[0]);
                        assert(before[before.len() - 1] == es0[1]);
                        if !holds_uid(s.elements@, ins[j].uid) {
                            assert(!interior_uid(before, ins[j].uid));
                        }
                    }
                    if j < m && holds_uid(before, ins[j].uid) {
                        let q = choose|q: int| 0 <= q < before.len() && uid_same(&(#[trigger] before[q]).uid, &ins[j].uid);
                        assert(before.contains(before[q]));
                        assert(s.elements@.contains(before[q]));
                        let p = choose|p: int| 0 <= p < s.elements@.len() && s.elements@[p] == before[q];
                        assert(uid_same(&s.elements@[p].uid, &ins[j].uid));
                    }
                }
            }
            m = m + 1;
        }
        proof {
            assert(ins.subrange(0, ins.len() as int) =~= ins);
            assert forall|x: Element| #[trigger] s.elements@.contains(x) implies holds_uid(ins, x.uid) || is_start_uid(x.uid) || is_end_uid(x.uid) by {
                assert(ins.subrange(0, ins.len() as int) =~= ins);
            }
            assert forall|k: int| 0 <= k < ins.len() implies holds_uid(s.elements@, (#[trigger] ins[k]).uid)
                || !interior_uid(s.elements@, ins[k].uid) by {
                if !holds_uid(s.elements@, ins[k].uid) {
                    assert(!interior_uid(es0, ins[k].uid));
                    assert(s.elements@[0] == es0[0]);
                    assert(s.elements@[s.elements@.len() - 1] == es0[1]);
                }
            }
        }
        s
    }
}

/// Two runs in strictly increasing Uid order whose elements match each
/// other (Uid, length and text) hold the same elements, place by place.
pub proof fn lemma_uid_runs_match(a: Seq<Element>, b: Seq<Element>)
    requires
        uids_increase(a),
        uids_increase(b),
        forall|x: Element| #[trigger] a.contains(x) ==> has_match(b, x),
        forall|y: Element| #[trigger] b.contains(y) ==> has_match(a, y),
    ensures
        crate::op::remote::same_elements(a, b),
    decreases a.len(),
{
    if a.len() == 0 {
        if b.len() > 0 {
            assert(b.contains(b[0]));
        }
    } else {
        assert(a.contains(a[0]));
        let j = choose|j: int| 0 <= j < b.len() && elt_same(a[0], #[trigger] b[j]);
        assert(b.contains(b[0]));
        let i = choose|i: int| 0 <= i < a.len() && elt_same(b[0], #[trigger] a[i]);
        if j > 0 {
            assert(uid_lt(&b[0].uid, &b[j].uid));
            if i > 0 {
                assert(uid_lt(&a[0].uid, &a[i].uid));
                lemma_uid_order(&a[0].uid, &a[i].uid, &a[0].uid);
            } else {
                lemma_uid_order(&b[0].uid, &b[j].uid, &b[0].uid);
            }
            assert(false);
        }
        let ra = a.drop_first();
        let rb = b.drop_first();
        assert forall|x: Element| #[trigger] ra.contains(x) implies has_match(rb, x) by {
            let k = choose|k: int| 0 <= k < ra.len() && ra[k] == x;
            assert(a[k + 1] == x && a.contains(x));
            let m = choose|m: int| 0 <= m < b.len() && elt_same(x, #[trigger] b[m]);
            if m == 0 {
                assert(uid_lt(&a[0].uid, &a[k + 1].uid));
                lemma_uid_order(&a[0].uid, &a[k + 1].uid, &a[0].uid);
            }
            assert(rb[m - 1] == b[m]);
        }
        assert forall|y: Element| #[trigger] rb.contains(y) implies has_match(ra, y) by {
            let k = choose|k: int| 0 <= k < rb.len() && rb[k] == y;
            assert(b[k + 1] == y && b.contains(y));
            let m = choose|m: int| 0 <= m < a.len() && elt_same(y, #[trigger] a[m]);
            if m == 0 {
                assert(uid_lt(&b[0].uid, &b[k + 1].uid));
                lemma_uid_order(&b[0].uid, &b[k + 1].uid, &b[0].uid);
            }
            assert(ra[m - 1] == a[m]);
        }
        lemma_uid_runs_match(ra, rb);
        assert forall|q: int| 0 <= q < a.len() implies elt_same(#[trigger] a[q], b[q]) by {
            if q > 0 {
                assert(ra[q - 1] == a[q] && rb[q - 1] == b[q]);
            }
        }
    }
}

/// Executing at another site the update that a local edit returned
/// reproduces the edit there: where the other string held the same
/// elements, it ends with the same elements as the edited one, place by
/// place (Uid, length and text).
pub proof fn lemma_remote_replay(es: Seq<Element>, es1: Seq<Element>, t1: Seq<Element>, op: UpdateAttributedString, i: int, j: int)
    requires
        elements_wf(es),
        elements_wf(es1),
        elements_wf(t1),
        replaced_run(es, es1, i, j, op),
        remote_applied(es, t1, op),
    ensures
        crate::op::remote::same_elements(t1, es1),
{
    let m = op.inserts@.len() as int;
    let n = es.len() as int;
    let mid = es1.subrange(i, i + m);
    assert(es1 =~= es.subrange(0, i) + mid + es.subrange(j, n));
    assert(es1.len() == n - (j - i) + m);
    assert forall|x: Element| #[trigger] t1.contains(x) implies has_match(es1, x) by {
        if es.contains(x) && !holds_uid(op.deletes@, x.uid) {
            let k = choose|k: int| 0 <= k < n && es[k] == x;
            if i <= k < j {
                assert(op.deletes@[k - i] == x);
                assert(uid_same(&op.deletes@[k - i].uid, &x.uid));
                assert(false);
            } else if k < i {
                assert(es1[k] == x);
                assert(elt_same(x, es1[k]));
            } else {
                assert(es1[k - j + i + m] == x);
                assert(elt_same(x, es1[k - j + i + m]));
            }
        } else if has_match(op.inserts@, x) {
            let q = choose|q: int| 0 <= q < m && elt_same(x, #[trigger] op.inserts@[q]);
            assert(elt_same(mid[q], op.inserts@[q]));
            assert(es1[i + q] == mid[q]);
            assert(elt_same(x, es1[i + q]));
        } else if x == es[0] {
            assert(es1[0] == x);
            assert(elt_same(x, es1[0]));
        } else {
            assert(es1[es1.len() - 1] == x);
            assert(elt_same(x, es1[es1.len() - 1]));
        }
    }
    assert forall|y: Element| #[trigger] es1.contains(y) implies has_match(t1, y) by {
        let p = choose|p: int| 0 <= p < es1.len() && es1[p] == y;
        if p < i || p >= i + m {
            let k = if p < i { p } else { p - i - m + j };
            assert(es[k] == y);
            assert(es.contains(y));
            if holds_uid(op.deletes@, y.uid) {
                let d = choose|d: int| 0 <= d < op.deletes@.len() && uid_same(&(#[trigger] op.deletes@[d]).uid, &y.uid);
                assert(op.deletes@[d] == es[i + d]);
                if k < i + d {
                    assert(uid_lt(&es[k].uid, &es[i + d].uid));
                    lemma_uid_order(&es[k].uid, &es[i + d].uid, &es[k].uid);
                } else {
                    assert(uid_lt(&es[i + d].uid, &es[k].uid));
                    lemma_uid_order(&es[k].uid, &es[i + d].uid, &es[k].uid);
                }
                assert(false);
            }
            assert(t1.contains(y));
            let w = choose|w: int| 0 <= w < t1.len() && t1[w] == y;
            assert(elt_same(y, t1[w]));
        } else {
            let q = p - i;
            let ins = op.inserts@[q];
            assert(mid[q] == y);
            assert(elt_same(y, ins));
            // the inserted Uid lies between the markers
            assert(uid_lt(&es1[0].uid, &es1[p].uid));
            assert(uid_lt(&es1[p].uid, &es1[es1.len() - 1].uid));
            assert(es1[0] == es[0]);
            assert(es1[es1.len() - 1] == es[n - 1]);
            assert(interior_uid(es, ins.uid));
            assert(holds_uid(t1, ins.uid));
            let w = choose|w: int| 0 <= w < t1.len() && uid_same(&(#[trigger] t1[w]).uid, &ins.uid);
            assert(t1.contains(t1[w]));
            let r = choose|r: int| 0 <= r < es1.len() && elt_same(t1[w], #[trigger] es1[r]);
            if r < p {
                assert(uid_lt(&es1[r].uid, &es1[p].uid));
                lemma_uid_order(&es1[r].uid, &es1[p].uid, &es1[r].uid);
            } else if r > p {
                assert(uid_lt(&es1[p].uid, &es1[r].uid));
                lemma_uid_order(&es1[r].uid, &es1[p].uid, &es1[r].uid);
            }
            assert(r == p);
            assert(elt_same(y, t1[w]));
        }
    }
    lemma_uid_runs_match(t1, es1);
}

} // verus!
