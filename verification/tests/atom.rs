use ditto::atom::Atom;
use ditto::Replica;

#[test]
fn atom_test_new() {
    let atom: Atom<i64> = Atom::new(8142);
    assert!(atom.value().clone() == 8142);
    assert!(atom.0.len() == 1);
    assert!(atom.0[0].0 == Replica { site: 1, counter: 0 });
    assert!(atom.0[0].1.clone() == 8142);
}

#[test]
fn atom_test_into() {
    let atom: Atom<i64> = Atom::new(789);
    assert!(atom.into() == 789);
}

#[test]
fn test_update() {
    let mut atom: Atom<i64> = Atom::new(8142);
    let op = atom.update(42, &Replica { site: 1, counter: 1 });

    assert!(atom.value().clone() == 42);
    assert!(op.deletes.len() == 1);
    assert!(op.deletes[0].0 == Replica { site: 1, counter: 0 });
    assert!(op.deletes[0].1.clone() == 8142);
    assert!(op.insert.0 == Replica { site: 1, counter: 1 });
    assert!(op.insert.1.clone() == 42);
}

#[test]
fn atom_test_execute_remote() {
    let mut atom1: Atom<&'static str> = Atom::new("a");
    let mut atom2: Atom<&'static str> = Atom::new("a");

    let remote_op = atom1.update("b", &Replica { site: 1, counter: 0 });
    let local_op = atom2.execute_remote(&remote_op);

    assert!(atom2.value().clone() == "b");
    assert!(atom2.0.len() == 1);
    assert!(local_op.value.clone() == "b");
}

#[test]
fn atom_test_execute_remote_concurrent() {
    let mut atom1: Atom<&'static str> = Atom::new("a");
    let mut atom2: Atom<&'static str> = Atom::new("a");
    let mut atom3: Atom<&'static str> = Atom::new("a");

    let remote_op1 = atom1.update("b", &Replica { site: 1, counter: 1 });
    let remote_op2 = atom2.update("c", &Replica { site: 2, counter: 0 });
    let local_op1 = atom3.execute_remote(&remote_op1);
    let local_op2 = atom3.execute_remote(&remote_op2);

    assert!(atom3.value().clone() == "b");
    assert!(atom3.0.len() == 2);
    assert!(local_op1.value.clone() == "b");
    assert!(local_op2.value.clone() == "b");
}

#[test]
fn atom_test_execute_remote_dupe() {
    let mut atom1: Atom<&'static str> = Atom::new("a");
    let mut atom2: Atom<&'static str> = Atom::new("a");

    let remote_op = atom1.update("b", &Replica { site: 1, counter: 0 });
    let local_op1 = atom2.execute_remote(&remote_op);
    let local_op2 = atom2.execute_remote(&remote_op);

    assert!(atom2.value().clone() == "b");
    assert!(atom2.0.len() == 1);
    assert!(local_op1.value.clone() == "b");
    assert!(local_op2.value.clone() == "b");
}
