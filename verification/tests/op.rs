use ditto::attributed_string::element::Element;
use ditto::dot::Dot;
use ditto::op::remote::{RemoteOp, UpdateAttributedString};
use ditto::op::NestedRemoteOp;
use ditto::sequence::uid::Uid;

fn element(site: u32, text: &str) -> Element {
    let uid = Uid::between(&Uid::min(), &Uid::max(), Dot::new(site, 1));
    Element::text(text.to_string(), uid)
}

fn nested(inserts: Vec<Element>, deletes: Vec<Element>) -> NestedRemoteOp {
    NestedRemoteOp {
        pointer: "/a/b".to_string(),
        op: RemoteOp::UpdateAttributedString(UpdateAttributedString { inserts, deletes }),
    }
}

#[test]
fn nested_remote_op_validates_its_inserts() {
    let op1 = nested(vec![element(9, "a"), element(9, "b")], vec![element(2, "c")]);
    let op2 = nested(vec![element(9, "a"), element(2, "b")], vec![]);
    assert!(op1.validate(9));
    assert!(!op1.validate(2));
    assert!(!op2.validate(9));
    assert!(!op2.validate(2));
    assert!(nested(vec![], vec![element(4, "x")]).validate(1));
}

#[test]
fn nested_remote_op_reverse_swaps_and_keeps_pointer() {
    let op = nested(vec![element(3, "ab")], vec![element(4, "cd"), element(5, "ef")]);
    let rev = op.reverse();
    assert_eq!(rev.pointer, "/a/b");
    match (&op.op, &rev.op) {
        (RemoteOp::UpdateAttributedString(a), RemoteOp::UpdateAttributedString(b)) => {
            assert_eq!(b.inserts.len(), 2);
            assert_eq!(b.deletes.len(), 1);
            assert!(b.inserts[0] == a.deletes[0] && b.inserts[0].text == "cd");
            assert!(b.inserts[1] == a.deletes[1] && b.inserts[1].text == "ef");
            assert!(b.deletes[0] == a.inserts[0] && b.deletes[0].text == "ab");
        }
    }
    assert!(rev.reverse() == op);
}

#[test]
fn remote_op_reverse_of_reverse_validates_alike() {
    let op = RemoteOp::UpdateAttributedString(UpdateAttributedString {
        inserts: vec![element(6, "q")],
        deletes: vec![element(7, "r")],
    });
    let rev = op.reverse();
    assert!(op.validate(6));
    assert!(rev.validate(7));
    assert!(!rev.validate(6));
    assert!(rev.reverse().validate(6));
}
