use ditto::map::{Element, LocalOp, MapCrdt, MapValue, RemoteOp};
use ditto::{Error, Replica};

#[test]
fn map_test_into() {
    let mut map: MapValue<&'static str, u16> = MapValue::new();
    let _ = map.insert("foo", 2, &Replica { site: 1, counter: 0 });
    let _ = map.insert("bar", 5, &Replica { site: 1, counter: 1 });
    let _ = map.insert("baz", 7, &Replica { site: 1, counter: 2 });

    let hashmap = map.local_value();
    assert!(hashmap.len() == 3);
    assert!(hashmap.get(&"foo") == Some(&2));
    assert!(hashmap.get(&"bar") == Some(&5));
    assert!(hashmap.get(&"baz") == Some(&7));
}

#[test]
fn test_contains_key() {
    let mut map: MapCrdt<&'static str, u16> = MapCrdt::new();
    let _ = map.insert("foo", 2);
    assert!(map.contains_key(&"foo"));
    assert!(!map.contains_key(&"bar"));
}

#[test]
fn map_test_get() {
    let mut map: MapCrdt<i32, u64> = MapCrdt::new();
    let _ = map.insert(26, 42);
    assert!(map.get(&26) == Some(&42));
    assert!(map.get(&56) == None);
}

#[test]
fn map_test_insert() {
    let mut map: MapValue<bool, i8> = MapValue::new();
    let remote_op = map.insert(true, 1, &Replica { site: 20, counter: 30 }).unwrap();
    assert!(map.inner.get(&true) == Some(&vec![Element(Replica { site: 20, counter: 30 }, 1)]));
    assert!(remote_op == RemoteOp::Insert {
        key: true,
        element: Element(Replica { site: 20, counter: 30 }, 1),
        removed: vec![],
    });
}

#[test]
fn test_insert_overwrite() {
    let mut map: MapValue<bool, i8> = MapValue::new();
    let _ = map.insert(true, 3, &Replica::new(1, 0));
    let remote_op = map.insert(true, 8, &Replica::new(2, 0)).unwrap();

    assert!(map.inner.get(&true) == Some(&vec![Element(Replica::new(2, 0), 8)]));
    assert!(remote_op == RemoteOp::Insert {
        key: true,
        element: Element(Replica::new(2, 0), 8),
        removed: vec![Element(Replica::new(1, 0), 3)],
    });
}

#[test]
fn map_test_remove() {
    let mut map: MapValue<bool, i8> = MapValue::new();
    let _ = map.insert(true, 3, &Replica::new(1, 0));
    let remote_op = map.remove(&true).unwrap();

    assert!(map.inner.get(&true) == None);
    assert!(remote_op == RemoteOp::Remove { key: true, removed: vec![Element(Replica::new(1, 0), 3)] });
}

#[test]
fn map_test_remove_does_not_exist() {
    let mut map: MapValue<bool, i8> = MapValue::new();
    assert!(map.remove(&true).unwrap_err() == Error::DoesNotExist);
}

#[test]
fn map_test_execute_remote() {
    let mut map1: MapValue<&'static str, u32> = MapValue::new();
    let mut map2: MapCrdt<&'static str, u32> = MapCrdt::new();
    let remote_op1 = map1.insert("foo", 1, &Replica::new(1, 0)).unwrap();
    let remote_op2 = map1.remove(&"foo").unwrap();

    let local_op1 = map2.execute_remote(&remote_op1);
    assert!(map2.get(&"foo") == Some(&1));
    assert!(local_op1 == Some(LocalOp::Insert("foo", 1)));

    let local_op2 = map2.execute_remote(&remote_op2);
    assert!(map2.get(&"foo") == None);
    assert!(local_op2 == Some(LocalOp::Remove("foo")));
}

#[test]
fn map_test_execute_remote_concurrent() {
    let mut map1: MapValue<&'static str, u32> = MapValue::new();
    let mut map2: MapValue<&'static str, u32> = MapValue::new();
    let mut map3: MapCrdt<&'static str, u32> = MapCrdt::new();

    let remote_op1 = map1.insert("foo", 1, &Replica::new(1, 0)).unwrap();
    let remote_op2 = map2.insert("foo", 2, &Replica::new(2, 0)).unwrap();
    let remote_op3 = map1.remove(&"foo").unwrap();

    let local_op1 = map3.execute_remote(&remote_op1);
    let local_op2 = map3.execute_remote(&remote_op2);
    let local_op3 = map3.execute_remote(&remote_op3);

    assert!(map3.get(&"foo") == Some(&2));
    assert!(local_op1 == Some(LocalOp::Insert("foo", 1)));
    assert!(local_op2 == Some(LocalOp::Insert("foo", 1)));
    assert!(local_op3 == Some(LocalOp::Insert("foo", 2)));
}

#[test]
fn map_test_execute_remote_dupe() {
    let mut map1: MapValue<&'static str, u32> = MapValue::new();
    let mut map2: MapCrdt<&'static str, u32> = MapCrdt::new();
    let remote_op = map1.insert("foo", 1, &Replica::new(1, 0)).unwrap();
    let local_op1 = map2.execute_remote(&remote_op);
    let local_op2 = map2.execute_remote(&remote_op);

    assert!(map2.get(&"foo") == Some(&1));
    assert!(local_op1 == Some(LocalOp::Insert("foo", 1)));
    assert!(local_op2 == Some(LocalOp::Insert("foo", 1)));
}

#[test]
fn map_insert_same_value_is_refused() {
    let mut map: MapCrdt<u8, u8> = MapCrdt::new();
    assert!(map.insert(1, 9).is_ok());
    assert!(map.insert(1, 9).unwrap_err() == Error::AlreadyExists);
    assert!(map.insert(1, 4).is_ok());
    assert!(map.get(&1) == Some(&4));
}

#[test]
fn map_awaiting_site_and_add_site() {
    let mut map: MapCrdt<u8, u8> = MapCrdt::from_value(MapValue::new(), 0);
    assert!(map.insert(1, 9).unwrap_err() == Error::AwaitingSite);
    assert!(map.insert(1, 4).unwrap_err() == Error::AwaitingSite);
    let ops = map.add_site(6).unwrap();
    assert!(ops.len() == 2);
    assert!(ops[0] == RemoteOp::Insert { key: 1, element: Element(Replica::new(6, 0), 9), removed: vec![] });
    assert!(ops[1] == RemoteOp::Insert {
        key: 1,
        element: Element(Replica::new(6, 1), 4),
        removed: vec![Element(Replica::new(6, 0), 9)],
    });
    assert!(map.value().inner.get(&1) == Some(&vec![Element(Replica::new(6, 1), 4)]));
    assert!(map.site() == 6);
    assert!(map.add_site(7).unwrap_err() == Error::AlreadyHasSite);
}

#[test]
fn map_remote_remove_of_absent_key_is_ignored() {
    let mut map: MapCrdt<u8, u8> = MapCrdt::new();
    let op: RemoteOp<u8, u8> = RemoteOp::Remove { key: 3, removed: vec![Element(Replica::new(2, 0), 1)] };
    assert!(map.execute_remote(&op).is_none());
    assert!(!map.contains_key(&3));
}
