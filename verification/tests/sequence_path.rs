use ditto::sequence::path::{generate_index, max, min, PathElt};

#[test]
fn test_generate_index() {
    let i1 = generate_index(0, 8, 3);
    println!("i1 is {}", i1);
    assert!(1 <= i1 && i1 <= 7);

    let i2 = generate_index(0, 16, 4);
    println!("i2 is {}", i2);
    assert!(6 <= i2 && i2 <= 15);

    let i3 = generate_index(4, 6, 4);
    println!("i3 is {}", i3);
    assert!(i3 == 5);
}

#[test]
fn path_min_and_max() {
    assert!(min() == vec![PathElt::new(0, 0)]);
    assert!(max() == vec![PathElt::new(8, 0)]);
}

#[test]
fn generate_index_plus_strategy_stays_within_boundary() {
    for _ in 0..50 {
        let i = generate_index(100, 1000, 1);
        assert!(101 <= i && i < 110);
    }
}
