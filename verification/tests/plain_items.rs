use ditto::attribute_string::attr::{AttrClose, AttrOpen};
use ditto::attributed_string::element::Element;
use ditto::attributed_string::index::Index;
use ditto::attributed_string::range::{Bound, Range};
use ditto::json::LocalUid;
use ditto::op::local::{Delete, DeleteItem, DeleteText, InsertText, ReplaceText};
use ditto::sequence::uid::Uid;
use ditto::Replica;

fn text(s: &str, counter: u32) -> Element {
    Element::text(s.to_string(), Uid::new(vec![counter as u64 + 1], 1, counter))
}

fn elements() -> Vec<Element> {
    let start = Element::text(String::new(), Uid::min());
    let end = Element::text(String::new(), Uid::max());
    vec![start, text("hello", 1), text("wörld", 2), text("!", 3), end]
}

#[test]
fn element_counts_characters() {
    let e = text("wörld", 2);
    assert!(e.len == 5);
    assert!(e.text == "wörld");
    assert!(!e.is_end_marker());
    assert!(Element::text(String::new(), Uid::max()).is_end_marker());
}

#[test]
fn element_between_places_text() {
    let a = Element::text(String::new(), Uid::min());
    let b = Element::text(String::new(), Uid::max());
    let e = Element::between(&a, &b, "xy".to_string(), &Replica::new(4, 9));
    assert!(e.len == 2);
    assert!(e.uid.site_id == 4 && e.uid.counter == 9);
    assert!(e.uid.precedes(&b.uid) && a.uid.precedes(&e.uid));
}

#[test]
fn bound_inside_an_element() {
    let elts = elements();
    assert!(Bound::new(&elts, 0) == Bound { index: 1, offset: 0 });
    assert!(Bound::new(&elts, 4) == Bound { index: 1, offset: 4 });
    assert!(Bound::new(&elts, 5) == Bound { index: 2, offset: 0 });
    assert!(Bound::new(&elts, 7) == Bound { index: 2, offset: 2 });
    assert!(Bound::new(&elts, 10) == Bound { index: 3, offset: 0 });
}

#[test]
fn bound_past_the_text_is_the_end_marker() {
    let elts = elements();
    assert!(Bound::new(&elts, 11) == Bound { index: 4, offset: 0 });
    assert!(Bound::new(&elts, 500) == Bound { index: 4, offset: 0 });
}

#[test]
fn bound_without_end_marker_is_the_last_element() {
    let elts = vec![text("ab", 1), text("cd", 2)];
    assert!(Bound::new(&elts, 9) == Bound { index: 1, offset: 0 });
}

#[test]
fn range_spans_elements() {
    let elts = elements();
    let r = Range::new(&elts, 3, 4);
    assert!(r.lower == Bound { index: 1, offset: 3 });
    assert!(r.upper == Bound { index: 2, offset: 2 });
    let r = Range::new(&elts, 6, 100);
    assert!(r.lower == Bound { index: 2, offset: 1 });
    assert!(r.upper == Bound { index: 4, offset: 0 });
}

#[test]
fn index_fields() {
    let i = Index { eidx: 1, cidx: 2, bidx: 3, location: 4 };
    assert!(i == Index { eidx: 1, cidx: 2, bidx: 3, location: 4 });
}

#[test]
fn attr_marks() {
    let a = AttrOpen::new("bold".to_string(), "true".to_string());
    let b = a.clone();
    assert!(a == b);
    let c = AttrClose::new("bold".to_string());
    assert!(c.clone() == c);
    assert!(AttrClose::new("em".to_string()) != c);
}

#[test]
fn local_ops_hold_their_fields() {
    assert!(Delete::new("k".to_string()).key == "k");
    assert!(DeleteItem::new(4).index == 4);
    let d = DeleteText::new(2, 3);
    assert!(d.index == 2 && d.len == 3);
    let i = InsertText::new(7, "abc".to_string());
    assert!(i.index == 7 && i.text == "abc");
    let r = ReplaceText::new(1, 2, "z".to_string());
    assert!(r.index == 1 && r.len == 2 && r.text == "z");
}

#[test]
fn local_uid_variants() {
    assert!(LocalUid::Object("a".to_string()) == LocalUid::Object("a".to_string()));
    assert!(LocalUid::Array(3) != LocalUid::Array(4));
}
