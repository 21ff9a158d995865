use ditto::sequence::element::{EltValue, Element};
use ditto::sequence::uid::Uid;

fn uid(n: u64) -> Uid {
    Uid::new(vec![n], 1, n as u32)
}

#[test]
fn elt_value_len_counts_text_bytes() {
    assert_eq!(EltValue::<i64>::Text("hello".to_string()).len(), 5);
    assert_eq!(EltValue::<i64>::Text("wörld".to_string()).len(), 6);
    assert_eq!(EltValue::<i64>::Text(String::new()).len(), 0);
    assert_eq!(EltValue::<i64>::Item(42).len(), 0);
    assert_eq!(EltValue::<i64>::Empty.len(), 0);
}

#[test]
fn sequence_markers_hold_nothing() {
    let start: Element<i64> = Element::start_marker();
    let end: Element<i64> = Element::end_marker();
    assert!(start.uid == Uid::min());
    assert!(end.uid == Uid::max());
    assert!(start.item().is_none() && start.text().is_none());
    assert!(end.attr_open().is_none() && end.attr_close().is_none());
    assert_eq!(start.len(), 0);
}

#[test]
fn sequence_element_getters() {
    let item: Element<i64> = Element::new_item(7, uid(3));
    assert_eq!(item.item(), Some(&7));
    assert!(item.text().is_none());
    assert_eq!(item.len(), 0);

    let text: Element<i64> = Element::new_text("añb".to_string(), uid(4));
    assert_eq!(text.text(), Some("añb"));
    assert!(text.item().is_none());
    assert_eq!(text.len(), 4);
    assert_eq!(text.uid.counter, 4);

    let open: Element<i64> = Element::new_attr_open("bold".to_string(), "true".to_string(), uid(5));
    assert!(open.attr_open().is_some() && open.attr_close().is_none());
    let close: Element<i64> = Element::new_attr_close("bold".to_string(), uid(6));
    assert!(close.attr_close().is_some() && close.attr_open().is_none());
    assert_eq!(close.len(), 0);
}
