use ditto::crdt_trait::Crdt;
use ditto::set::{LocalOp, RemoteOp, SetCrdt, SetValue};
use ditto::{Error, Replica};

fn insert_fields<T>(remote_op: RemoteOp<T>) -> (T, Replica) {
    match remote_op {
        RemoteOp::Insert { value, replica } => (value, replica),
        _ => panic!(),
    }
}

fn remove_fields<T>(remote_op: RemoteOp<T>) -> (T, Vec<Replica>) {
    match remote_op {
        RemoteOp::Remove { value, replicas } => (value, replicas),
        _ => panic!(),
    }
}

#[test]
fn set_test_new() {
    let set: SetCrdt<u8> = SetCrdt::new();
    assert!(set.site() == 1);
}

#[test]
fn test_contains() {
    let mut set: SetCrdt<u8> = SetCrdt::new();
    let _ = set.insert(123);
    assert!(set.contains(&123));
    assert!(!set.contains(&56));
}

#[test]
fn set_test_insert() {
    let mut set: SetCrdt<u32> = SetCrdt::new();
    let remote_op = set.insert(123).unwrap();
    let (value, replica) = insert_fields(remote_op);
    assert!(value == 123);
    assert!(replica.site == 1);
}

#[test]
fn test_insert_already_exists() {
    let mut set: SetCrdt<u32> = SetCrdt::new();
    assert!(set.insert(123).is_ok());
    assert!(set.insert(123).unwrap_err() == Error::AlreadyExists);
    assert!(set.contains(&123));
}

#[test]
fn test_insert_awaiting_site() {
    let set1: SetCrdt<u32> = SetCrdt::new();
    let mut set2: SetCrdt<u32> = SetCrdt::from_value(set1.clone_value(), 0);
    assert!(set2.insert(123).unwrap_err() == Error::AwaitingSite);
    assert!(set2.contains(&123));
}

#[test]
fn set_test_remove() {
    let mut set: SetCrdt<u32> = SetCrdt::new();
    let remote_op1 = set.insert(123).unwrap();
    let remote_op2 = set.remove(&123).unwrap();
    let (_, replica) = insert_fields(remote_op1);
    let (value, replicas) = remove_fields(remote_op2);

    assert!(value == 123);
    assert!(replicas.len() == 1);
    assert!(replica == replicas[0]);
}

#[test]
fn set_test_remove_does_not_exist() {
    let mut set: SetCrdt<u32> = SetCrdt::new();
    assert!(set.remove(&123).unwrap_err() == Error::DoesNotExist);
}

#[test]
fn test_remove_awaiting_site() {
    let set1: SetCrdt<u32> = SetCrdt::new();
    let mut set2: SetCrdt<u32> = SetCrdt::from_value(set1.clone_value(), 0);
    let _ = set2.insert(123);
    assert!(set2.remove(&123).unwrap_err() == Error::AwaitingSite);
    assert!(!set2.contains(&123));
}

#[test]
fn test_site() {
    let set1: SetCrdt<u64> = SetCrdt::new();
    let set2: SetCrdt<u64> = SetCrdt::from_value(set1.clone_value(), 8403);
    assert!(set1.site() == 1);
    assert!(set2.site() == 8403);
}

#[test]
fn execute_remote_insert() {
    let mut set1: SetCrdt<u64> = SetCrdt::new();
    let mut set2: SetCrdt<u64> = SetCrdt::from_value(set1.clone_value(), 8403);
    let remote_op = set1.insert(22).unwrap();
    let local_op = set2.execute_remote(&remote_op).unwrap();
    assert!(matches!(local_op, LocalOp::Insert(22)));
}

#[test]
fn execute_remote_insert_value_already_exists() {
    let mut set1: SetCrdt<u64> = SetCrdt::new();
    let mut set2: SetCrdt<u64> = SetCrdt::from_value(set1.clone_value(), 2);
    let remote_op = set1.insert(22).unwrap();
    let _ = set2.insert(22).unwrap();

    assert!(set2.execute_remote(&remote_op).is_none());
    assert!(set2.value().0.get(&22).unwrap().len() == 2);
}

#[test]
fn execute_remote_insert_dupe() {
    let mut set1: SetCrdt<u64> = SetCrdt::new();
    let mut set2: SetCrdt<u64> = SetCrdt::from_value(set1.clone_value(), 2);
    let remote_op = set1.insert(22).unwrap();

    assert!(set2.execute_remote(&remote_op).is_some());
    assert!(set2.execute_remote(&remote_op).is_none());
    assert!(set2.value().0.get(&22).unwrap().len() == 1);
}

#[test]
fn execute_remote_remove() {
    let mut set1: SetCrdt<u64> = SetCrdt::new();
    let _ = set1.insert(10).unwrap();
    let mut set2: SetCrdt<u64> = SetCrdt::from_value(set1.clone_value(), 2);
    let remote_op = set1.remove(&10).unwrap();
    let local_op = set2.execute_remote(&remote_op).unwrap();

    assert!(!set2.contains(&10));
    assert!(matches!(local_op, LocalOp::Remove(10)));
}

#[test]
fn execute_remote_remove_does_not_exist() {
    let mut set1: SetCrdt<u64> = SetCrdt::new();
    let mut set2: SetCrdt<u64> = SetCrdt::from_value(set1.clone_value(), 2);
    let _ = set1.insert(10).unwrap();
    let remote_op = set1.remove(&10).unwrap();
    assert!(set2.execute_remote(&remote_op).is_none());
    assert!(!set2.contains(&10));
}

#[test]
fn execute_remote_remove_some_replicas_remain() {
    let mut set1: SetCrdt<u64> = SetCrdt::new();
    let mut set2: SetCrdt<u64> = SetCrdt::from_value(set1.clone_value(), 2);
    let _ = set1.insert(10).unwrap();
    let _ = set2.insert(10).unwrap();
    let remote_op = set1.remove(&10).unwrap();
    assert!(set2.execute_remote(&remote_op).is_none());
    assert!(set2.contains(&10));
}

#[test]
fn execute_remote_remove_dupe() {
    let mut set1: SetCrdt<u64> = SetCrdt::new();
    let mut set2: SetCrdt<u64> = SetCrdt::from_value(set1.clone_value(), 2);
    let remote_op1 = set1.insert(10).unwrap();
    let remote_op2 = set1.remove(&10).unwrap();
    assert!(set2.execute_remote(&remote_op1).is_some());
    assert!(set2.execute_remote(&remote_op2).is_some());
    assert!(set2.execute_remote(&remote_op2).is_none());
    assert!(!set2.contains(&10));
}

#[test]
fn set_test_add_site() {
    let mut set: SetCrdt<u64> = SetCrdt::from_value(SetCrdt::new().clone_value(), 0);
    let _ = set.insert(10);
    let _ = set.insert(20);
    let _ = set.remove(&10);
    let mut remote_ops = set.add_site(5).unwrap().into_iter();

    let (value1, replica1) = insert_fields(remote_ops.next().unwrap());
    let (value2, replica2) = insert_fields(remote_ops.next().unwrap());
    let (value3, replicas) = remove_fields(remote_ops.next().unwrap());

    assert!(set.value().0.get(&20).unwrap()[0].site == 5);
    assert!(value1 == 10 && replica1 == Replica::new(5, 0));
    assert!(value2 == 20 && replica2 == Replica::new(5, 1));
    assert!(value3 == 10 && replicas == vec![Replica::new(5, 0)]);
    assert!(set.site() == 5);
}

#[test]
fn set_test_add_site_already_has_site() {
    let mut set: SetCrdt<u64> = SetCrdt::from_value(SetCrdt::new().clone_value(), 123);
    let _ = set.insert(10);
    let _ = set.insert(20);
    let _ = set.remove(&10);
    assert!(set.add_site(42).unwrap_err() == Error::AlreadyHasSite);
}

#[test]
fn set_local_value_holds_the_elements() {
    let mut set: SetCrdt<u32> = SetCrdt::new();
    let _ = set.insert(3);
    let _ = set.insert(9);
    let _ = set.remove(&3);
    let values = set.value().local_value();
    assert!(values.len() == 1);
    assert!(values.contains(&9));
}

#[test]
fn set_remote_op_add_site_keeps_existing_sites() {
    let mut op: RemoteOp<u8> = RemoteOp::Remove { value: 1, replicas: vec![Replica::new(0, 4), Replica::new(7, 2)] };
    op.add_site(3);
    let (_, replicas) = remove_fields(op);
    assert!(replicas == vec![Replica::new(3, 4), Replica::new(7, 2)]);
}

#[test]
fn set_remote_inserts_keep_replicas_in_order() {
    let mut value: SetValue<u32> = SetValue::new();
    let ins = |r: Replica| RemoteOp::Insert { value: 7u32, replica: r };
    assert!(value.execute_remote(&ins(Replica::new(2, 0))) == Some(LocalOp::Insert(7)));
    assert!(value.execute_remote(&ins(Replica::new(1, 0))).is_none());
    assert!(value.execute_remote(&ins(Replica::new(0, 5))).is_none());
    assert!(value.execute_remote(&ins(Replica::new(0, 5))).is_none());
    assert!(value.0.get(&7).unwrap() == &vec![Replica::new(0, 5), Replica::new(1, 0), Replica::new(2, 0)]);
    let rm = RemoteOp::Remove { value: 7u32, replicas: vec![Replica::new(1, 0), Replica::new(0, 5)] };
    assert!(value.execute_remote(&rm).is_none());
    assert!(value.0.get(&7).unwrap() == &vec![Replica::new(2, 0)]);
}

#[test]
fn set_concurrent_remote_inserts_commute() {
    let a = RemoteOp::Insert { value: 3u32, replica: Replica::new(4, 1) };
    let b = RemoteOp::Insert { value: 3u32, replica: Replica::new(2, 9) };
    let mut one: SetValue<u32> = SetValue::new();
    let mut two: SetValue<u32> = SetValue::new();
    one.execute_remote(&a);
    one.execute_remote(&b);
    two.execute_remote(&b);
    two.execute_remote(&a);
    assert!(one == two);
    assert!(one.0.get(&3).unwrap() == &vec![Replica::new(2, 9), Replica::new(4, 1)]);
}

#[test]
fn set_crdt_trait_update_site() {
    let mut set: SetCrdt<u64> = SetCrdt::from_value(SetCrdt::new().clone_value(), 0);
    assert!(set.insert(10).unwrap_err() == Error::AwaitingSite);
    let extra = RemoteOp::Insert { value: 99u64, replica: Replica::new(0, 7) };
    assert!(Crdt::return_or_cache_op(&mut set, extra).unwrap_err() == Error::AwaitingSite);
    let ops = Crdt::update_site(&mut set, 7).unwrap();
    assert!(ops.len() == 2);
    let (value1, replica1) = insert_fields(ops[0].clone());
    assert!(value1 == 10 && replica1 == Replica::new(7, 0));
    let (value2, replica2) = insert_fields(ops[1].clone());
    assert!(value2 == 99 && replica2 == Replica::new(7, 7));
    assert!(Crdt::site(&set) == 7);
    assert!(set.value().0.get(&10).unwrap()[0] == Replica::new(7, 0));
    assert!(Crdt::update_site(&mut set, 8).unwrap_err() == Error::AlreadyHasSite);
    let op = RemoteOp::Insert { value: 5u64, replica: Replica::new(7, 9) };
    assert!(Crdt::return_or_cache_op(&mut set, op.clone()).unwrap() == op);
    let local = Crdt::into_local(set);
    assert!(local.contains(&10) && local.len() == 1);
}
