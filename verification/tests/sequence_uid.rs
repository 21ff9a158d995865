use std::cmp::Ordering;
use ditto::dot::Dot;
use ditto::sequence::uid::Uid;

const DOT: Dot = Dot { site_id: 3, counter: 2 };

// Positions are written level by level: level 0 holds 20 bits, level 1
// holds 21 bits, and so on.
fn uid(position: Vec<u64>, site_id: u32, counter: u32) -> Uid {
    Uid { position, site_id, counter }
}

#[test]
fn test_min() {
    let uid = Uid::min();
    assert!(uid.position == vec![0]);
    assert!(uid.site_id == 0);
    assert!(uid.counter == 0);
}

#[test]
fn test_max() {
    let uid = Uid::max();
    assert!(uid.position == vec![0b11111111111111111111]);
    assert!(uid.site_id == 4294967295);
    assert!(uid.counter == 4294967295);
}

#[test]
fn test_ord() {
    let uid0 = Uid::min();
    let uid1 = uid(vec![0b00000000000000101001], 8, 382);
    let uid2 = uid(vec![0b00000000000101010010], 1, 5);
    let uid3 = uid(vec![0b00000000000101010010], 1, 5);
    let uid4 = uid(vec![0b00000000001011110010], 4, 4);
    let uid5 = uid(vec![0b00000000001011111101], 4, 4);
    let uid6 = Uid::max();

    let mut uids: Vec<&Uid> = vec![&uid4, &uid1, &uid5, &uid6, &uid0, &uid2, &uid3];
    uids.sort();

    assert!(uids[0] == &uid0);
    assert!(uids[1] == &uid1);
    assert!(uids[2] == &uid2);
    assert!(uids[3] == &uid2);
    assert!(uids[4] == &uid4);
    assert!(uids[5] == &uid5);
    assert!(uids[6] == &uid6);
}

#[test]
fn test_between_trivial() {
    let uid1 = Uid::min();
    let uid2 = Uid::max();
    let uid = Uid::between(&uid1, &uid2, DOT);

    assert!(vec![0b00000000000000000000] < uid.position);
    assert!(vec![0b11111111111111111111] > uid.position);
    assert!(uid.site_id == 3);
    assert!(uid.counter == 2);
}

#[test]
fn test_between_basic() {
    let uid1 = uid(vec![0b01111111111111111110], 1, 1);
    let uid2 = uid(vec![0b10000000000000000000], 1, 1);
    let uid = Uid::between(&uid1, &uid2, DOT);
    assert!(uid.position == vec![0b01111111111111111111]);
}

#[test]
fn test_between_multi_level() {
    let uid1 = uid(vec![0b11111000000000000000], 1, 1);
    let uid2 = uid(vec![0b11111000000000000001], 1, 1);
    let uid = Uid::between(&uid1, &uid2, DOT);
    assert!(uid.position > vec![0b11111000000000000000, 0b000000000000000000000]);
    assert!(uid.position < vec![0b11111000000000000000, 0b000000000000000101001]);
}

#[test]
fn test_between_squeeze() {
    let uid1 = uid(vec![0b11111000000000000000, 0b001101010010101010101, 0b1010101010101010101010], 1, 1);
    let uid2 = uid(vec![0b11111000000000000000, 0b001101010010101010111, 0b1010101010101010101010], 1, 1);
    let uid = Uid::between(&uid1, &uid2, DOT);
    assert!(uid.position == vec![0b11111000000000000000, 0b001101010010101010110]);
}

#[test]
fn test_between_equals() {
    let uid1 = uid(vec![0b00110011100000000010], 1, 1);
    let uid2 = uid(vec![0b00110011100000000010], 2, 1);
    let uid = Uid::between(&uid1, &uid2, DOT);
    assert!(uid.position > vec![0b00110011100000000010, 0b000000000000000000000]);
    assert!(uid.position < vec![0b00110011100000000010, 0b000000000000000101001]);
}

#[test]
fn test_between_first_is_shorter() {
    let uid1 = uid(vec![0b11111000000000000000], 1, 1);
    let uid2 = uid(vec![0b11111000000000000000, 0b001101010010101010101], 2, 1);
    let uid = Uid::between(&uid1, &uid2, DOT);
    assert!(uid.position > vec![0b11111000000000000000, 0b000000000000000000000]);
    assert!(uid.position < vec![0b11111000000000000000, 0b000000000000000101001]);
}

#[test]
fn test_between_first_is_longer() {
    let uid1 = uid(vec![0b11111000000000000000, 0b001101010010101010110], 1, 1);
    let uid2 = uid(vec![0b11111000000000000000], 2, 1);
    let uid = Uid::between(&uid1, &uid2, DOT);
    assert!(uid.position > vec![0b11111000000000000000, 0b001101010010101010110]);
    assert!(uid.position < vec![0b11111000000000000000, 0b001101010010101111111]);
}

#[test]
fn uid_between_is_strictly_between_many_times() {
    // the law of `between`: after the left neighbour, before the right one
    let mut left = Uid::min();
    let right = Uid::max();
    for _ in 0..200 {
        let next = Uid::between(&left, &right, DOT);
        assert!(left.precedes(&next));
        assert!(next.precedes(&right));
        left = next;
    }
}

#[test]
fn uid_compare_and_same() {

    let a = uid(vec![5], 1, 1);
    let b = uid(vec![5, 1], 0, 0);
    let c = uid(vec![5], 2, 0);
    assert_eq!(a.cmp(&b), Ordering::Less);
    assert_eq!(b.cmp(&a), Ordering::Greater);
    assert_eq!(a.cmp(&c), Ordering::Less);
    assert!(a.same(&a.clone()));
    assert!(!a.same(&c));
    assert_eq!(a.dot(), Dot::new(1, 1));
}

#[test]
fn sequence_uid_text_of_min_and_max() {
    let min = Uid::min();
    assert_eq!(min.to_vlq(), vec![0xc0u8, 0x80, 0x00, 0x00, 0x00]);
    assert_eq!(min.to_string(), "wIAAAAA");
    assert!(Uid::from_str("wIAAAAA").unwrap() == min);
    let max = Uid::max();
    assert_eq!(max.to_string(), "__9_j____3-P____fw");
    assert!(Uid::from_str("__9_j____3-P____fw").unwrap() == max);
}

#[test]
fn sequence_uid_text_round_trip() {
    let uid = uid(vec![0b11111000000000000000, 0b001101010010101010110], 4, 83);
    let bytes = uid.to_vlq();
    assert_eq!(bytes, vec![0xfeu8, 0x80, 0x80, 0x9a, 0xca, 0x56, 0x04, 0x53]);
    let text = uid.to_string();
    assert_eq!(text, "_oCAmspWBFM");
    assert!(Uid::from_str(&text).unwrap() == uid);
    assert!(Uid::from_vlq(&bytes).unwrap() == uid);
}

#[test]
fn test_serialize_deserialize_invalid() {
    let serialized = "bjad%%";
    let deserialized = Uid::from_str(&serialized);
    assert!(deserialized.is_err());
}

#[test]
fn sequence_uid_text_errors() {
    assert!(Uid::from_str("!!!").unwrap_err() == ditto::Error::DeserializeSequenceUID);
    assert!(Uid::from_vlq(&[0xc0u8, 0x80]).unwrap_err() == ditto::Error::VLQNoTerminatingByte);
    assert!(Uid::from_vlq(&[0x00u8, 0x00, 0x00]).unwrap_err() == ditto::Error::DeserializeSequenceUID);
    assert!(Uid::from_vlq(&[0xc0u8, 0x80, 0x00, 0x05]).unwrap_err() == ditto::Error::VLQNoTerminatingByte);
}
