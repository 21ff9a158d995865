//! An atom holds a single value. An update replaces the value; updates
//! made concurrently at several sites are all kept, ordered by replica,
//! and the first is the atom's value.

use crate::replica::{
    lemma_stamped_applied_commute, lemma_stamped_applied_content, lemma_stamped_applied_idempotent, remove_stamped,
    search_stamped, stamped_applied, stamped_sorted, stamps, without_stamped, Replica, Stamped,
};
use crate::set::{clones_exactly, copy_of};
use vstd::prelude::*;

verus! {

/// A value with the replica that wrote it.
pub type Element<T> = (Replica, T);

/// The values an atom holds, ordered by replica.
#[derive(Debug, Clone)]
pub struct Atom<T>(pub Vec<Element<T>>);

/// An update to send to other sites: the values it replaced and the one
/// it wrote.
pub struct RemoteOp<T> {
    pub deletes: Vec<Element<T>>,
    pub insert: Element<T>,
}

/// The atom's value after a remote update.
pub struct LocalOp<T> {
    pub value: T,
}

impl<T> Stamped for (Replica, T) {
    open spec fn stamp(&self) -> Replica {
        self.0
    }

    fn replica(&self) -> (r: &Replica) {
        &self.0
    }
}

impl<T> View for Atom<T> {
    type V = Seq<Element<T>>;

    open spec fn view(&self) -> Seq<Element<T>> {
        self.0@
    }
}

/// The values an atom holds after applying `op`: the deleted ones gone,
/// and the written one added at its place by replica unless it is there.
pub open spec fn atom_applied<T>(before: Seq<Element<T>>, op: RemoteOp<T>) -> Seq<Element<T>> {
    stamped_applied(before, op.deletes@, op.insert)
}

/// An element with the same replica and value, for a type that clones
/// exactly.
fn copy_element<T: Clone>(e: &Element<T>) -> (r: Element<T>)
    requires
        clones_exactly::<T>(),
    ensures
        r == *e,
{
    (e.0, copy_of(&e.1))
}

impl<T: std::fmt::Debug + Clone> Atom<T> {
    /// Constructs an atom holding `value`, written by replica (1, 0).
    pub fn new(value: T) -> (a: Self)
        ensures
            a@ == seq![(Replica { site: 1, counter: 0 }, value)],
    {
        let replica = Replica { site: 1, counter: 0 };
        let element = (replica, value);
        let mut v: Vec<Element<T>> = Vec::new();
        v.push(element);
        Atom(v)
    }

    /// The atom's value: the first it holds.
    pub fn value(&self) -> (v: &T)
        requires
            self@.len() > 0,
        ensures
            *v == self@[0].1,
    {
        &self.0[0].1
    }

    /// Consumes the atom and returns its value.
    pub fn into(self) -> (v: T)
        requires
            self@.len() > 0,
        ensures
            v == self@[0].1,
    {
        let mut vec = self.0;
        vec.swap_remove(0).1
    }

    /// Replaces what the atom holds with `new_value` written by `replica`
    /// and returns the update for other sites.
    pub fn update(&mut self, new_value: T, replica: &Replica) -> (op: RemoteOp<T>)
        ensures
            final(self)@.len() == 1,
            final(self)@[0].0 == *replica,
            cloned(new_value, final(self)@[0].1),
            op.deletes@ == old(self)@,
            op.insert == (*replica, new_value),
    {
        let insert = (*replica, new_value);
        let mut elements: Vec<Element<T>> = Vec::new();
        elements.push((insert.0, insert.1.clone()));
        let mut deletes: Vec<Element<T>> = Vec::new();
        std::mem::swap(&mut deletes, &mut self.0);
        self.0 = elements;
        RemoteOp { deletes: deletes, insert: insert }
    }

    /// Applies an update from another site and returns the atom's value
    /// after it.
    pub fn execute_remote(&mut self, op: &RemoteOp<T>) -> (r: LocalOp<T>)
        requires
            clones_exactly::<T>(),
        ensures
            final(self)@ == atom_applied(old(self)@, *op),
            stamped_sorted(old(self)@) ==> stamped_sorted(final(self)@),
            final(self)@.len() > 0,
            r.value == final(self)@[0].1,
    {
        remove_stamped(&mut self.0, &op.deletes);
        if let Err(index) = search_stamped(&self.0, &op.insert.0) {
            self.0.insert(index, copy_element(&op.insert));
        }
        proof {
            let left = without_stamped(old(self)@, op.deletes@);
            crate::replica::lemma_replica_search_bounds(stamps(left), op.insert.0, 0, left.len() as int);
        }
        proof {
            if stamped_sorted(old(self)@) {
                lemma_stamped_applied_content(old(self)@, op.deletes@, op.insert);
            }
        }
        LocalOp { value: copy_of(&self.0[0].1) }
    }
}

/// Executing the same remote update twice leaves the atom holding what
/// executing it once does, when the atom's values are in strict replica
/// order; they stay in that order.
pub proof fn lemma_atom_execute_remote_idempotent<T>(before: Seq<Element<T>>, op: RemoteOp<T>)
    requires
        stamped_sorted(before),
    ensures
        stamped_sorted(atom_applied(before, op)),
        atom_applied(atom_applied(before, op), op) == atom_applied(before, op),
{
    lemma_stamped_applied_idempotent(before, op.deletes@, op.insert);
}

/// Two concurrent updates (made under different replicas, neither
/// deleting the value the other writes) leave the atom holding the same
/// values, and so the same value, whichever arrives first; where the
/// atom's values are in strict replica order and each replica names one
/// value.
pub proof fn lemma_atom_concurrent_updates_commute<T>(before: Seq<Element<T>>, op1: RemoteOp<T>, op2: RemoteOp<T>)
    requires
        stamped_sorted(before),
        op1.insert.0 != op2.insert.0,
        !stamps(op2.deletes@).contains(op1.insert.0),
        !stamps(op1.deletes@).contains(op2.insert.0),
        forall|x: Element<T>| before.contains(x) && x.0 == op1.insert.0 ==> x == op1.insert,
        forall|x: Element<T>| before.contains(x) && x.0 == op2.insert.0 ==> x == op2.insert,
    ensures
        atom_applied(atom_applied(before, op1), op2) == atom_applied(atom_applied(before, op2), op1),
{
    lemma_stamped_applied_commute(before, op1.deletes@, op1.insert, op2.deletes@, op2.insert);
}

} // verus!
