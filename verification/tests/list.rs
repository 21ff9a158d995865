use ditto::crdt_trait::Crdt;
use ditto::list::{Element, List, ListValue, LocalOp, RemoteOp};
use ditto::sequence::uid::Uid;
use ditto::Error;

fn get_insert_elt<T>(remote_op: RemoteOp<T>) -> Element<T> {
    match remote_op {
        RemoteOp::Insert(element) => element,
        RemoteOp::Remove(_) => panic!(),
    }
}

fn get_remove_uid<T>(remote_op: RemoteOp<T>) -> Uid {
    match remote_op {
        RemoteOp::Remove(uid) => uid,
        RemoteOp::Insert(_) => panic!(),
    }
}

#[test]
fn list_test_new() {
    let list: List<i64> = List::new();
    assert!(list.len() == 0);
}

#[test]
fn list_test_get() {
    let mut list: List<i64> = List::new();
    let _ = list.insert(0, 123).unwrap();
    assert!(list.get(0).unwrap() == &123);
}

#[test]
fn test_find_index() {
    let mut list: List<i64> = List::new();
    let _ = list.insert(0, 123).unwrap();
    let op = list.insert(1, 456).unwrap();
    let _ = list.insert(2, 789).unwrap();

    let Element(uid, _) = get_insert_elt(op);
    assert!(list.value().find_index(&uid) == Ok(1));
    assert!(list.value().find_index(&Uid::min()) == Err(0));
    assert!(list.value().find_index(&Uid::max()) == Err(3));
}

#[test]
fn test_insert_prepend() {
    let mut list: List<i64> = List::new();
    let op1 = list.insert(0, 123).unwrap();
    let op2 = list.insert(0, 456).unwrap();
    let op3 = list.insert(0, 789).unwrap();

    assert!(list.len() == 3);
    assert!(list.value().elements[0].1 == 789);
    assert!(list.value().elements[1].1 == 456);
    assert!(list.value().elements[2].1 == 123);

    let element1 = get_insert_elt(op1);
    let element2 = get_insert_elt(op2);
    let element3 = get_insert_elt(op3);

    assert!(element1.1 == 123 && element2.1 == 456 && element3.1 == 789);
    assert!(Uid::max() > element1.0);
    assert!(element1.0 > element2.0);
    assert!(element2.0 > element3.0);
    assert!(element3.0 > Uid::min());
}

#[test]
fn test_insert_append() {
    let mut list: List<i64> = List::new();
    let op1 = list.insert(0, 123).unwrap();
    let op2 = list.insert(1, 456).unwrap();
    let op3 = list.insert(2, 789).unwrap();

    assert!(list.value().elements[0].1 == 123);
    assert!(list.value().elements[1].1 == 456);
    assert!(list.value().elements[2].1 == 789);

    let element1 = get_insert_elt(op1);
    let element2 = get_insert_elt(op2);
    let element3 = get_insert_elt(op3);

    assert!(Uid::min() < element1.0);
    assert!(element1.0 < element2.0);
    assert!(element2.0 < element3.0);
    assert!(element3.0 < Uid::max());
}

#[test]
fn test_insert_middle() {
    let mut list: List<i64> = List::new();
    let op1 = list.insert(0, 123).unwrap();
    let op2 = list.insert(1, 456).unwrap();
    let op3 = list.insert(1, 789).unwrap();

    assert!(list.value().elements[0].1 == 123);
    assert!(list.value().elements[1].1 == 789);
    assert!(list.value().elements[2].1 == 456);

    let element1 = get_insert_elt(op1);
    let element2 = get_insert_elt(op2);
    let element3 = get_insert_elt(op3);

    assert!(Uid::min() < element1.0);
    assert!(element1.0 < element3.0);
    assert!(element3.0 < element2.0);
    assert!(element2.0 < Uid::max());
}

#[test]
fn test_insert_out_of_bounds() {
    let mut list: List<i64> = List::new();
    let result = list.insert(1, 123);
    assert!(result.unwrap_err() == Error::OutOfBounds);
}

#[test]
fn list_test_remove() {
    let mut list: List<i64> = List::new();
    let _ = list.insert(0, 123).unwrap();
    let op1 = list.insert(1, 456).unwrap();
    let _ = list.insert(2, 789).unwrap();
    let op2 = list.remove(1).unwrap();

    let element = get_insert_elt(op1);
    let uid = get_remove_uid(op2);

    assert!(list.len() == 2);
    assert!(list.value().elements[0].1 == 123);
    assert!(list.value().elements[1].1 == 789);
    assert!(element.0 == uid);
}

#[test]
fn test_remove_out_of_bounds() {
    let mut list: List<i64> = List::new();
    let result = list.remove(0);
    assert!(result.unwrap_err() == Error::OutOfBounds);
}

#[test]
fn test_insert_remove_awaiting_site() {
    let mut list: List<i64> = List::from_value(ListValue::new(), 0);
    assert!(list.insert(0, 123).unwrap_err() == Error::AwaitingSite);
    assert!(list.len() == 1);
    assert!(list.remove(0).unwrap_err() == Error::AwaitingSite);
    assert!(list.len() == 0);
    let ops = list.add_site(5).unwrap();
    assert!(ops.len() == 2);
    assert!(list.site() == 5);
}

#[test]
fn test_execute_remote_insert() {
    let mut list1: List<&'static str> = List::new();
    let mut list2: List<&'static str> = List::new();
    let remote_op = list1.insert(0, "a").unwrap();
    let local_op = list2.execute_remote(&remote_op).unwrap();

    assert!(list2.len() == 1);
    assert!(list2.value().elements[0].1 == "a");
    assert!(matches!(local_op, LocalOp::Insert { index: 0, value: "a" }));
}

#[test]
fn test_execute_remote_insert_dupe() {
    let mut list1: List<String> = List::new();
    let mut list2: List<String> = List::new();
    let remote_op = list1.insert(0, "a".to_owned()).unwrap();

    let _ = list2.execute_remote(&remote_op).unwrap();
    assert!(list2.execute_remote(&remote_op).is_none());
    assert!(list2.len() == 1);
}

#[test]
fn test_execute_remote_remove() {
    let mut list1: List<String> = List::new();
    let mut list2: List<String> = List::new();
    let remote_op1 = list1.insert(0, "a".to_owned()).unwrap();
    let remote_op2 = list1.remove(0).unwrap();
    let _ = list2.execute_remote(&remote_op1).unwrap();
    let local_op = list2.execute_remote(&remote_op2).unwrap();
    assert!(list2.len() == 0);
    assert!(matches!(local_op, LocalOp::Remove { index: 0 }));
}

#[test]
fn test_execute_remote_remove_dupe() {
    let mut list1: List<String> = List::new();
    let mut list2: List<String> = List::new();
    let remote_op1 = list1.insert(0, "a".to_owned()).unwrap();
    let remote_op2 = list1.remove(0).unwrap();

    let _ = list2.execute_remote(&remote_op1).unwrap();
    let _ = list2.execute_remote(&remote_op2).unwrap();
    assert!(list2.execute_remote(&remote_op2).is_none());
    assert!(list2.len() == 0);
}

#[test]
fn list_merge_deterministic() {
    // list1: [3, 6, 9] made at site 1, then 6 removed
    let mut list1: List<i32> = List::new();
    let _ = list1.insert(0, 3);
    let _ = list1.insert(1, 6);
    let _ = list1.insert(2, 9);
    let _ = list1.remove(1);

    // list2 starts from list1's state at site 2, removes 3 and appends 12, 15
    let mut list2: List<i32> = List::from_value(list1.clone_value(), 2);
    let _ = list2.remove(0);
    let _ = list2.insert(1, 12);
    let _ = list2.insert(2, 15);
    // list1 removes 9
    let _ = list1.remove(1);

    let list3 = list1.clone();
    list1.merge(list2.clone());
    list2.merge(list3);

    // both sides converge: 3 and 9 are gone, 12 and 15 remain
    assert!(list1.value() == list2.value());
    assert!(list1.local_value() == vec![12, 15]);
    assert!(list1.value().elements[0].0.site_id == 2);
    assert!(list1.value().elements[0].0.counter == 1);
    assert!(list1.value().elements[1].0.site_id == 2);
    assert!(list1.value().elements[1].0.counter == 2);
    assert!(list1.value().tombstones().contains_pair(1, 2));
}

#[test]
fn list_merge_with_itself() {
    let mut list1: List<i32> = List::new();
    let _ = list1.insert(0, 1);
    let _ = list1.insert(1, 2);
    let copy = list1.clone();
    list1.merge(copy);
    assert!(list1.local_value() == vec![1, 2]);
}

#[test]
fn list_test_add_site() {
    let mut list: List<u32> = List::from_value(ListValue::new(), 0);
    let _ = list.insert(0, 51);
    let _ = list.insert(1, 52);
    let _ = list.remove(0);
    let mut remote_ops = list.add_site(12).unwrap().into_iter();

    let element1 = get_insert_elt(remote_ops.next().unwrap());
    let element2 = get_insert_elt(remote_ops.next().unwrap());
    let uid3 = get_remove_uid(remote_ops.next().unwrap());

    assert!(list.value().elements[0].0.site_id == 12);
    assert!(element1.0.site_id == 12);
    assert!(element2.0.site_id == 12);
    assert!(uid3.site_id == 12);
}

#[test]
fn list_test_add_site_already_has_site() {
    let mut list: List<u32> = List::from_value(ListValue::new(), 12);
    let _ = list.insert(0, 51);
    let _ = list.insert(1, 52);
    let _ = list.remove(0);
    assert!(list.add_site(13).unwrap_err() == Error::AlreadyHasSite);
}

#[test]
fn list_remote_op_validate_site() {
    let mut list: List<u32> = List::from_value(ListValue::new(), 7);
    let op = list.insert(0, 1).unwrap();
    assert!(op.validate_site(7) == Ok(()));
    assert!(op.validate_site(8) == Err(Error::InvalidRemoteOp));
    let op = list.remove(0).unwrap();
    assert!(op.validate_site(8) == Ok(()));
}

#[test]
fn list_crdt_trait_update_site() {
    let mut list: List<u32> = List::from_value(ListValue::new(), 0);
    assert!(list.insert(0, 51).unwrap_err() == Error::AwaitingSite);
    let ops = Crdt::update_site(&mut list, 12).unwrap();
    assert!(ops.len() == 1);
    assert!(Crdt::site(&list) == 12);
    assert!(list.value().elements[0].0.site_id == 12);
    assert!(Crdt::update_site(&mut list, 13).unwrap_err() == Error::AlreadyHasSite);
    assert!(Crdt::into_local(list) == vec![51]);
}
