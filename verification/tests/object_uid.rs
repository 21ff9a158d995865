use std::cmp::Ordering;
use ditto::object::UID;
use ditto::Error;
use ditto::Replica;

#[test]
fn uid_test_new() {
    let replica = Replica { site: 1, counter: 23 };
    let uid = UID::new("foo", &replica);
    assert!(uid.key == String::from("foo"));
    assert!(uid.site == 1);
    assert!(uid.counter == 23);
}

#[test]
fn test_equality() {
    let replica1 = Replica::new(1, 23);
    let replica2 = Replica::new(2, 13);

    let uid1 = UID::new("foo", &replica1);
    let uid2 = UID::new("bar", &replica1);
    let uid3 = UID::new("foo", &replica2);
    assert!(uid1 == uid2);
    assert!(uid1 != uid3);
}

#[test]
fn uid_to_string_exact() {
    // site 4 -> [0x04], counter 83 -> [0x53]; base64 of [0x04, 0x53] is "BFM"
    let uid = UID::new("k", &Replica::new(4, 83));
    assert_eq!(uid.to_string(), "BFM,k");
}

#[test]
fn uid_to_string_multi_byte_vlq() {
    // 170 -> [0x81, 0x2A]; 0 -> [0x00]; base64 of [0x81, 0x2A, 0x00] is "gSoA"
    let uid = UID::new("key", &Replica::new(170, 0));
    assert_eq!(uid.to_string(), "gSoA,key");
}

#[test]
fn uid_string_round_trip() {
    let uid = UID::new("some key", &Replica::new(4_000_000_000, 129));
    let text = uid.to_string();
    let back = UID::from_str(&text).unwrap();
    assert_eq!(back.key, "some key");
    assert_eq!(back.site, 4_000_000_000);
    assert_eq!(back.counter, 129);
}

#[test]
fn uid_from_str_key_stops_at_second_comma() {
    let back = UID::from_str("BFM,ab,cd").unwrap();
    assert_eq!(back.key, "ab");
    assert_eq!(back.site, 4);
    assert_eq!(back.counter, 83);
}

#[test]
fn uid_from_str_without_comma() {
    assert!(UID::from_str("BFM").unwrap_err() == Error::DeserializeObjectUID);
}

#[test]
fn uid_from_str_bad_base64() {
    assert!(UID::from_str("B%M,k").unwrap_err() == Error::DeserializeObjectUID);
}

#[test]
fn uid_from_str_unterminated_vlq() {
    // base64 of [0x81] is "gQ": the quantity never ends
    assert!(UID::from_str("gQ,k").unwrap_err() == Error::VLQNoTerminatingByte);
}

#[test]
fn uid_cmp_by_site_then_counter() {

    let a = UID::new("z", &Replica::new(1, 9));
    let b = UID::new("a", &Replica::new(2, 0));
    let c = UID::new("q", &Replica::new(1, 9));
    assert_eq!(a.cmp(&b), Ordering::Less);
    assert_eq!(b.cmp(&a), Ordering::Greater);
    assert_eq!(a.cmp(&c), Ordering::Equal);
}
