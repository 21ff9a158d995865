//! A `Set` stores a collection of distinct elements. The elements
//! themselves are immutable. Each element remembers the replicas that
//! inserted it; it leaves the set when every one of them is removed.
//!
//! Keys are kept in std's `HashMap`, so the contracts hold for element
//! types whose hashing, equality and cloning behave as a map key needs
//! (`obeys_key_model`, which holds of every primitive integer type).

use crate::error::Error;
use crate::replica::{
    lemma_replica_search_sorted, lemma_stamped_sorted_unique, lemma_without_stamped, lemma_without_stamped_commute,
    lemma_stamped_applied_commute, remove_stamped, replica_lt, stamped_applied, replica_search, replicas_sorted, search_stamped, stamps, without_stamped, Replica, Stamped,
};
use std::collections::{HashMap, HashSet};
use vstd::prelude::*;
use vstd::std_specs::hash::obeys_key_model;
use vstd::std_specs::iter::IteratorSpec;

verus! {

broadcast use vstd::std_specs::hash::group_hash_axioms;

/// What a set element must be able to do.
pub trait SetElement: Clone + Eq + std::hash::Hash + std::fmt::Debug {}

impl<T: Clone + Eq + std::hash::Hash + std::fmt::Debug> SetElement for T {}

/// The state of a set: each element with the replicas that inserted it.
#[derive(Debug, PartialEq)]
pub struct SetValue<T: SetElement>(pub HashMap<T, Vec<Replica>>);

/// An operation to send to other sites.
#[derive(Debug, Clone, PartialEq)]
pub enum RemoteOp<T> {
    Insert { value: T, replica: Replica },
    Remove { value: T, replicas: Vec<Replica> },
}

/// The effect of a remote operation on this site's set.
#[derive(Debug, Clone, PartialEq)]
pub enum LocalOp<T> {
    Insert(T),
    Remove(T),
}

/// A set CRDT: its state, the replica that names its next operation,
/// and the operations made while it had no site.
#[derive(Debug, PartialEq)]
pub struct SetCrdt<T: SetElement> {
    value: SetValue<T>,
    replica: Replica,
    awaiting_site: Vec<RemoteOp<T>>,
}

/// Holds of a type whose `clone` gives back a value equal to its input,
/// as it does for the primitive types.
pub open spec fn clones_exactly<T: Clone>() -> bool {
    forall|a: T, b: T| #[trigger] cloned(a, b) ==> a == b
}

/// What the set's contracts ask of its element type: it behaves as a
/// hash map key and clones exactly.
pub open spec fn element_model<T: Clone>() -> bool {
    obeys_key_model::<T>() && clones_exactly::<T>()
}

/// A clone of `v`, which equals `v` for a type that clones exactly.
pub fn copy_of<T: Clone>(v: &T) -> (r: T)
    requires
        clones_exactly::<T>(),
    ensures
        r == *v,
{
    let r = v.clone();
    assert(cloned(*v, r));
    r
}

impl<T: SetElement> View for SetValue<T> {
    type V = Map<T, Seq<Replica>>;

    closed spec fn view(&self) -> Map<T, Seq<Replica>> {
        self.0@.map_values(|v: Vec<Replica>| v@)
    }
}

/// What applying `op` from another site does to the set's view, and what
/// it reports.
pub open spec fn set_remote_applied<T>(before: Map<T, Seq<Replica>>, after: Map<T, Seq<Replica>>, op: RemoteOp<T>, r: Option<LocalOp<T>>) -> bool {
    match op {
        RemoteOp::Insert { value, replica } => {
            let reps = if before.contains_key(value) { before[value] } else { Seq::empty() };
            match replica_search(reps, replica, 0, reps.len() as int) {
                Ok(_) => r is None && after == before.insert(value, reps),
                Err(i) => {
                    &&& after == before.insert(value, reps.insert(i, replica))
                    &&& r == (if reps.len() == 0 { Some(LocalOp::Insert(value)) } else { None })
                },
            }
        },
        RemoteOp::Remove { value, replicas } => {
            if !before.contains_key(value) {
                r is None && after == before
            } else {
                let left = without_stamped(before[value], replicas@);
                if left.len() == 0 {
                    after == before.remove(value) && r == Some(LocalOp::Remove(value))
                } else {
                    after == before.insert(value, left) && r is None
                }
            }
        },
    }
}

/// Every value of the set has replicas, in strict replica order: the
/// order in which the binary search looks for them.
pub open spec fn set_wf<T>(m: Map<T, Seq<Replica>>) -> bool {
    forall|v: T| #[trigger] m.contains_key(v) ==> m[v].len() > 0 && replicas_sorted(m[v])
}

/// What `SetValue::add_site` does to the view: the replica of a cached
/// insertion gets the site, where the value still holds it.
pub open spec fn set_site_added<T>(m: Map<T, Seq<Replica>>, op: RemoteOp<T>, site: u32) -> Map<T, Seq<Replica>> {
    match op {
        RemoteOp::Insert { value, replica } => {
            if m.contains_key(value) {
                match replica_search(m[value], replica, 0, m[value].len() as int) {
                    Ok(i) => m.insert(value, m[value].update(i, Replica { site: site, counter: m[value][i].counter })),
                    Err(_) => m,
                }
            } else {
                m
            }
        },
        RemoteOp::Remove { .. } => m,
    }
}

/// A replica after `add_site`: it takes the site if it has none.
pub open spec fn replica_with_site(r: Replica, site: u32) -> Replica {
    if r.site == 0 { Replica { site: site, counter: r.counter } } else { r }
}

/// `op` removes `value`, naming `replicas`.
pub open spec fn set_removal<T>(op: RemoteOp<T>, value: T, replicas: Seq<Replica>) -> bool {
    op matches RemoteOp::Remove { value: v, replicas: rs } && v == value && rs@ == replicas
}

/// `after` is `before` once `RemoteOp::add_site` has run: each of its
/// replicas that had no site has `site`.
pub open spec fn set_op_site_added<T>(before: RemoteOp<T>, after: RemoteOp<T>, site: u32) -> bool {
    match (before, after) {
        (RemoteOp::Insert { value: v0, replica: r0 }, RemoteOp::Insert { value: v1, replica: r1 }) =>
            v1 == v0 && r1 == replica_with_site(r0, site),
        (RemoteOp::Remove { value: v0, replicas: rs0 }, RemoteOp::Remove { value: v1, replicas: rs1 }) =>
            v1 == v0 && rs1@ == rs0@.map_values(|r: Replica| replica_with_site(r, site)),
        _ => false,
    }
}

/// The view after `SetValue::add_site` for each of `ops` in turn.
pub open spec fn set_sites_added<T>(m: Map<T, Seq<Replica>>, ops: Seq<RemoteOp<T>>, site: u32) -> Map<T, Seq<Replica>>
    decreases ops.len(),
{
    if ops.len() == 0 {
        m
    } else {
        set_site_added(set_sites_added(m, ops.drop_last(), site), ops.last(), site)
    }
}

impl<T: SetElement> SetValue<T> {
    /// Constructs an empty set.
    pub fn new() -> (s: Self)
        ensures
            s@ == Map::<T, Seq<Replica>>::empty(),
            set_wf(s@),
    {
        SetValue(HashMap::new())
    }

    /// Returns true iff the set contains the value.
    pub fn contains(&self, value: &T) -> (b: bool)
        requires
            element_model::<T>(),
        ensures
            b == self@.contains_key(*value),
    {
        self.0.contains_key(value)
    }

    /// Inserts a value made by `replica` and returns the op that
    /// replicates it. A value already present is refused with
    /// `AlreadyExists`.
    pub fn insert(&mut self, value: T, replica: &Replica) -> (r: Result<RemoteOp<T>, Error>)
        requires
            element_model::<T>(),
        ensures
            old(self)@.contains_key(value) ==> r == Err::<RemoteOp<T>, Error>(Error::AlreadyExists) && final(self)@ == old(self)@,
            !old(self)@.contains_key(value) ==> {
                &&& final(self)@ == old(self)@.insert(value, seq![*replica])
                &&& r == Ok::<RemoteOp<T>, Error>(RemoteOp::Insert { value: value, replica: *replica })
            },
            set_wf(old(self)@) ==> set_wf(final(self)@),
    {
        if self.0.contains_key(&value) {
            return Err(Error::AlreadyExists);
        }
        let mut replicas: Vec<Replica> = Vec::new();
        replicas.push(*replica);
        self.0.insert(copy_of(&value), replicas);
        assert(self@ =~= old(self)@.insert(value, seq![*replica]));
        Ok(RemoteOp::Insert { value: value, replica: *replica })
    }

    /// Removes a value and returns the op that replicates it, carrying
    /// the replicas that had inserted it. A value not present is refused
    /// with `DoesNotExist`.
    pub fn remove(&mut self, value: &T) -> (r: Result<RemoteOp<T>, Error>)
        requires
            element_model::<T>(),
        ensures
            !old(self)@.contains_key(*value) ==> r == Err::<RemoteOp<T>, Error>(Error::DoesNotExist) && final(self)@ == old(self)@,
            old(self)@.contains_key(*value) ==> {
                &&& final(self)@ == old(self)@.remove(*value)
                &&& match r {
                    Ok(RemoteOp::Remove { value: v, replicas }) => v == *value && replicas@ == old(self)@[*value],
                    _ => false,
                }
            },
            set_wf(old(self)@) ==> set_wf(final(self)@),
    {
        let replicas = match self.0.remove(value) {
            Some(r) => r,
            None => {
                assert(self@ =~= old(self)@);
                return Err(Error::DoesNotExist);
            },
        };
        assert(self@ =~= old(self)@.remove(*value));
        proof {
            if set_wf(old(self)@) {
                assert forall|v: T| #[trigger] self@.contains_key(v) implies self@[v].len() > 0 && replicas_sorted(self@[v]) by {
                    assert(old(self)@.contains_key(v));
                }
            }
        }
        Ok(RemoteOp::Remove { value: copy_of(value), replicas: replicas })
    }

    /// Applies an op from another site and returns its effect here: an
    /// insertion adds its replica to the value's replicas (reporting the
    /// value when it is new); a removal takes out the replicas it names
    /// (reporting the value when none is left, and dropping it).
    pub fn execute_remote(&mut self, op: &RemoteOp<T>) -> (r: Option<LocalOp<T>>)
        requires
            element_model::<T>(),
        ensures
            set_remote_applied(old(self)@, final(self)@, *op, r),
            set_wf(old(self)@) ==> set_wf(final(self)@),
    {
        let r = self.apply_remote(op);
        proof {
            if set_wf(old(self)@) {
                lemma_set_remote_wf(old(self)@, self@, *op, r);
            }
        }
        r
    }

    fn apply_remote(&mut self, op: &RemoteOp<T>) -> (r: Option<LocalOp<T>>)
        requires
            element_model::<T>(),
        ensures
            set_remote_applied(old(self)@, final(self)@, *op, r),
    {
        match op {
            RemoteOp::Insert { value, replica } => {
                let mut replicas = match self.0.remove(value) {
                    Some(r) => r,
                    None => Vec::new(),
                };
                let ghost reps = replicas@;
                assert(stamps(replicas@) =~= replicas@);
                let found = search_stamped(&replicas, replica);
                let result = match found {
                    Ok(_) => None,
                    Err(i) => {
                        replicas.insert(i, *replica);
                        if replicas.len() == 1 {
                            Some(LocalOp::Insert(copy_of(value)))
                        } else {
                            None
                        }
                    },
                };
                self.0.insert(copy_of(value), replicas);
                assert(self@ =~= old(self)@.insert(*value, replicas@));
                result
            },
            RemoteOp::Remove { value, replicas } => {
                let mut existing = match self.0.remove(value) {
                    Some(r) => r,
                    None => {
                        assert(self@ =~= old(self)@);
                        return None;
                    },
                };
                let ghost start = existing@;
                remove_stamped(&mut existing, replicas);
                if existing.len() == 0 {
                    assert(self@ =~= old(self)@.remove(*value));
                    Some(LocalOp::Remove(copy_of(value)))
                } else {
                    self.0.insert(copy_of(value), existing);
                    assert(self@ =~= old(self)@.insert(*value, without_stamped(start, replicas@)));
                    None
                }
            },
        }
    }

    /// Gives the site to the replica that a cached insertion recorded
    /// while the set had none; other ops change nothing.
    pub fn add_site(&mut self, op: &RemoteOp<T>, site: u32)
        requires
            element_model::<T>(),
        ensures
            final(self)@ == set_site_added(old(self)@, *op, site),
    {
        if let RemoteOp::Insert { value, replica } = op {
            let mut replicas = match self.0.remove(value) {
                Some(r) => r,
                None => {
                    assert(self@ =~= old(self)@);
                    return;
                },
            };
            assert(stamps(replicas@) =~= replicas@);
            if let Ok(index) = search_stamped(&replicas, replica) {
                replicas[index].site = site;
            }
            self.0.insert(copy_of(value), replicas);
            assert(self@ =~= set_site_added(old(self)@, *op, site));
        }
    }

    /// The values in the set.
    pub fn local_value(&self) -> (s: HashSet<T>)
        requires
            element_model::<T>(),
        ensures
            s@ == self@.dom(),
    {
        let mut hash_set: HashSet<T> = HashSet::new();
        for key in it: self.0.keys()
            invariant
                element_model::<T>(),
                it.seq() == vstd::std_specs::hash::spec_keys_iter(&self.0).remaining(),
                forall|x: T| hash_set@.contains(x) <==> exists|i: int| 0 <= i < it.index() && *it.seq()[i] == x,
        {
            let ghost before = hash_set@;
            hash_set.insert(copy_of(key));
            proof {
                assert forall|x: T| hash_set@.contains(x) <==> exists|i: int| 0 <= i < it.index() + 1 && *it.seq()[i] == x by {
                    if x == *key {
                        assert(*it.seq()[it.index() as int] == x);
                    }
                    if exists|i: int| 0 <= i < it.index() + 1 && *it.seq()[i] == x {
                        let i = choose|i: int| 0 <= i < it.index() + 1 && *it.seq()[i] == x;
                        if i < it.index() {
                            assert(before.contains(x));
                        }
                    }
                }
            }
        }
        proof {
            vstd::std_specs::hash::axiom_spec_keys_iter(&self.0);
            let v = vstd::std_specs::hash::spec_keys_iter(&self.0).remaining();
            assert forall|x: T| hash_set@.contains(x) <==> self@.dom().contains(x) by {
                if self.0@.dom().contains(x) {
                    assert(v.unref().to_set().contains(x));
                    assert(v.unref().contains(x));
                    let i = choose|i: int| 0 <= i < v.unref().len() && v.unref()[i] == x;
                    assert(*v[i] == x);
                }
                if hash_set@.contains(x) {
                    let i = choose|i: int| 0 <= i < v.len() && *v[i] == x;
                    assert(v.unref()[i] == x);
                    assert(v.unref().contains(x));
                }
            }
            assert(hash_set@ =~= self@.dom());
        }
        hash_set
    }
}

impl<T: SetElement> Clone for SetValue<T> {
    /// A copy with the same elements and replicas.
    fn clone(&self) -> (r: Self)
        ensures
            r@ == self@,
    {
        SetValue(self.0.clone())
    }
}

impl<T> RemoteOp<T> {
    /// Gives the site to each of the op's replicas that has none.
    pub fn add_site(&mut self, site: u32)
        ensures
            set_op_site_added(*old(self), *final(self), site),
    {
        match self {
            RemoteOp::Insert { replica, .. } => {
                if replica.site == 0 {
                    replica.site = site;
                }
            },
            RemoteOp::Remove { replicas, .. } => {
                let ghost start = replicas@;
                let mut i: usize = 0;
                while i < replicas.len()
                    invariant
                        i <= replicas.len(),
                        replicas@.len() == start.len(),
                        forall|k: int| 0 <= k < i ==> replicas@[k] == replica_with_site(#[trigger] start[k], site),
                        forall|k: int| i <= k < replicas@.len() ==> replicas@[k] == start[k],
                    decreases replicas.len() - i,
                {
                    if replicas[i].site == 0 {
                        replicas[i].site = site;
                    }
                    i = i + 1;
                }
                assert(replicas@ =~= start.map_values(|r: Replica| replica_with_site(r, site)));
            },
        }
    }
}

impl<T: SetElement> SetCrdt<T> {
    /// The set's state.
    pub closed spec fn state(&self) -> SetValue<T> {
        self.value
    }

    /// The replica that names the set's next operation.
    pub closed spec fn replica_of(&self) -> Replica {
        self.replica
    }

    /// The operations made while the set had no site.
    pub closed spec fn awaiting(&self) -> Seq<RemoteOp<T>> {
        self.awaiting_site@
    }

    /// Constructs an empty set with site 1 and counter 0.
    pub fn new() -> (s: Self)
        ensures
            s.state()@ == Map::<T, Seq<Replica>>::empty(),
            s.replica_of() == (Replica { site: 1, counter: 0 }),
            s.awaiting().len() == 0,
    {
        let replica = Replica::new(1, 0);
        let value = SetValue::new();
        SetCrdt { replica: replica, value: value, awaiting_site: Vec::new() }
    }

    /// Constructs a set from a state and a site (0 for none), with
    /// counter 0.
    pub fn from_value(value: SetValue<T>, site: u32) -> (s: Self)
        ensures
            s.state() == value,
            s.replica_of() == (Replica { site: site, counter: 0 }),
            s.awaiting().len() == 0,
    {
        let replica = Replica::new(site, 0);
        SetCrdt { value: value, replica: replica, awaiting_site: Vec::new() }
    }

    /// Returns true iff the set contains the value.
    pub fn contains(&self, value: &T) -> (b: bool)
        requires
            element_model::<T>(),
        ensures
            b == self.state()@.contains_key(*value),
    {
        self.value.contains(value)
    }

    /// The set's site.
    pub fn site(&self) -> (s: u32)
        ensures
            s == self.replica_of().site,
    {
        self.replica.site
    }

    /// The set's state.
    pub fn value(&self) -> (v: &SetValue<T>)
        ensures
            *v == self.state(),
    {
        &self.value
    }

    /// A copy of the set's state.
    pub fn clone_value(&self) -> (v: SetValue<T>)
        ensures
            v@ == self.state()@,
    {
        self.value.clone()
    }

    /// Counts an operation: the counter moves on; with a site the op is
    /// returned, without one it is kept for later and `AwaitingSite` is
    /// returned.
    fn after_op(&mut self, op: RemoteOp<T>) -> (r: Result<RemoteOp<T>, Error>)
        requires
            old(self).replica_of().counter < u32::MAX,
        ensures
            final(self).state() == old(self).state(),
            final(self).replica_of() == (Replica { site: old(self).replica_of().site, counter: (old(self).replica_of().counter + 1) as u32 }),
            old(self).replica_of().site != 0 ==> r == Ok::<RemoteOp<T>, Error>(op) && final(self).awaiting() == old(self).awaiting(),
            old(self).replica_of().site == 0 ==> r == Err::<RemoteOp<T>, Error>(Error::AwaitingSite) && final(self).awaiting() == old(self).awaiting().push(op),
    {
        self.replica.counter = self.replica.counter + 1;
        if self.replica.site != 0 {
            return Ok(op);
        }
        self.awaiting_site.push(op);
        Err(Error::AwaitingSite)
    }

    /// Inserts a value and returns the op that replicates it. A value
    /// already present is refused with `AlreadyExists`. Without a site,
    /// the op is kept for later and `AwaitingSite` is returned.
    pub fn insert(&mut self, value: T) -> (r: Result<RemoteOp<T>, Error>)
        requires
            element_model::<T>(),
            old(self).replica_of().counter < u32::MAX,
        ensures
            old(self).state()@.contains_key(value) ==> {
                &&& r == Err::<RemoteOp<T>, Error>(Error::AlreadyExists)
                &&& final(self).state()@ == old(self).state()@
                &&& final(self).replica_of() == old(self).replica_of()
                &&& final(self).awaiting() == old(self).awaiting()
            },
            !old(self).state()@.contains_key(value) ==> {
                let op = RemoteOp::Insert { value: value, replica: old(self).replica_of() };
                &&& final(self).state()@ == old(self).state()@.insert(value, seq![old(self).replica_of()])
                &&& final(self).replica_of() == (Replica { site: old(self).replica_of().site, counter: (old(self).replica_of().counter + 1) as u32 })
                &&& old(self).replica_of().site != 0 ==> r == Ok::<RemoteOp<T>, Error>(op) && final(self).awaiting() == old(self).awaiting()
                &&& old(self).replica_of().site == 0 ==> r == Err::<RemoteOp<T>, Error>(Error::AwaitingSite) && final(self).awaiting() == old(self).awaiting().push(op)
            },
    {
        let op = match self.value.insert(value, &self.replica) {
            Ok(op) => op,
            Err(e) => return Err(e),
        };
        self.after_op(op)
    }

    /// Removes a value and returns the op that replicates it. A value not
    /// present is refused with `DoesNotExist`. Without a site, the op is
    /// kept for later and `AwaitingSite` is returned.
    pub fn remove(&mut self, value: &T) -> (r: Result<RemoteOp<T>, Error>)
        requires
            element_model::<T>(),
            old(self).replica_of().counter < u32::MAX,
        ensures
            !old(self).state()@.contains_key(*value) ==> {
                &&& r == Err::<RemoteOp<T>, Error>(Error::DoesNotExist)
                &&& final(self).state()@ == old(self).state()@
                &&& final(self).replica_of() == old(self).replica_of()
                &&& final(self).awaiting() == old(self).awaiting()
            },
            old(self).state()@.contains_key(*value) ==> exists|op: RemoteOp<T>| {
                &&& #[trigger] set_removal(op, *value, old(self).state()@[*value])
                &&& final(self).state()@ == old(self).state()@.remove(*value)
                &&& final(self).replica_of() == (Replica { site: old(self).replica_of().site, counter: (old(self).replica_of().counter + 1) as u32 })
                &&& old(self).replica_of().site != 0 ==> r == Ok::<RemoteOp<T>, Error>(op) && final(self).awaiting() == old(self).awaiting()
                &&& old(self).replica_of().site == 0 ==> r == Err::<RemoteOp<T>, Error>(Error::AwaitingSite) && final(self).awaiting() == old(self).awaiting().push(op)
            },
    {
        let op = match self.value.remove(value) {
            Ok(op) => op,
            Err(e) => return Err(e),
        };
        let ghost sent = op;
        let r = self.after_op(op);
        assert(set_removal(sent, *value, old(self).state()@[*value]));
        r
    }

    /// Applies an op from another site (see `SetValue::execute_remote`).
    pub fn execute_remote(&mut self, op: &RemoteOp<T>) -> (r: Option<LocalOp<T>>)
        requires
            element_model::<T>(),
        ensures
            set_remote_applied(old(self).state()@, final(self).state()@, *op, r),
            final(self).replica_of() == old(self).replica_of(),
            final(self).awaiting() == old(self).awaiting(),
    {
        self.value.execute_remote(op)
    }

    /// Gives the set a site: the ops kept while it had none get the site
    /// (and so do the replicas their insertions recorded), and are
    /// returned in order. A set that has a site refuses with
    /// `AlreadyHasSite`.
    pub fn add_site(&mut self, site: u32) -> (r: Result<Vec<RemoteOp<T>>, Error>)
        requires
            element_model::<T>(),
        ensures
            old(self).replica_of().site != 0 ==> r == Err::<Vec<RemoteOp<T>>, Error>(Error::AlreadyHasSite)
                && final(self).state()@ == old(self).state()@ && final(self).awaiting() == old(self).awaiting(),
            old(self).replica_of().site == 0 ==> match r {
                Ok(ops) => {
                    &&& ops@.len() == old(self).awaiting().len()
                    &&& forall|k: int| 0 <= k < ops@.len() ==> set_op_site_added(old(self).awaiting()[k], #[trigger] ops@[k], site)
                    &&& final(self).state()@ == set_sites_added(old(self).state()@, old(self).awaiting(), site)
                    &&& final(self).awaiting().len() == 0
                },
                Err(_) => false,
            },
            old(self).replica_of().site != 0 ==> final(self).replica_of() == old(self).replica_of(),
            old(self).replica_of().site == 0 ==> final(self).replica_of() == (Replica { site: site, counter: old(self).replica_of().counter }),
    {
        if self.replica.site != 0 {
            return Err(Error::AlreadyHasSite);
        }
        let mut ops: Vec<RemoteOp<T>> = Vec::new();
        std::mem::swap(&mut ops, &mut self.awaiting_site);
        let ghost orig = ops@;
        let ghost start = self.value@;
        let mut i: usize = 0;
        while i < ops.len()
            invariant
                element_model::<T>(),
                i <= ops.len(),
                ops@.len() == orig.len(),
                forall|k: int| 0 <= k < i ==> set_op_site_added(orig[k], #[trigger] ops@[k], site),
                forall|k: int| i <= k < ops@.len() ==> ops@[k] == orig[k],
                self.value@ == set_sites_added(start, orig.subrange(0, i as int), site),
                self.replica == old(self).replica_of(),
                self.awaiting_site@.len() == 0,
            decreases ops.len() - i,
        {
            self.value.add_site(&ops[i], site);
            ops[i].add_site(site);
            assert(orig.subrange(0, i + 1).drop_last() =~= orig.subrange(0, i as int));
            i = i + 1;
        }
        assert(orig.subrange(0, orig.len() as int) =~= orig);
        self.replica.site = site;
        Ok(ops)
    }
}

impl<T: SetElement> crate::crdt_trait::CrdtValue for SetValue<T> {
    type RemoteOp = RemoteOp<T>;

    /// The element type behaves as the set's contracts need.
    open spec fn ready(&self) -> bool {
        element_model::<T>()
    }

    open spec fn site_taken(v: Map<T, Seq<Replica>>, op: RemoteOp<T>, site: u32) -> Map<T, Seq<Replica>> {
        set_site_added(v, op, site)
    }

    fn add_site(&mut self, op: &RemoteOp<T>, site: u32) {
        SetValue::add_site(self, op, site)
    }
}

impl<T: SetElement> crate::crdt_trait::Crdt for SetCrdt<T> {
    type LocalValue = HashSet<T>;
    type Value = SetValue<T>;
    type RemoteOp = RemoteOp<T>;
    type LocalOp = LocalOp<T>;

    closed spec fn site_view(&self) -> u32 {
        self.replica.site
    }

    closed spec fn value_view(&self) -> SetValue<T> {
        self.value
    }

    closed spec fn awaiting_view(&self) -> Seq<RemoteOp<T>> {
        self.awaiting_site@
    }

    fn value(&mut self) -> (r: &mut SetValue<T>) {
        &mut self.value
    }

    fn site(&self) -> (s: u32) {
        self.replica.site
    }

    fn set_site(&mut self, site: u32) {
        self.replica.site = site;
    }

    fn awaiting_site(&mut self) -> (r: &mut Vec<RemoteOp<T>>) {
        &mut self.awaiting_site
    }

    /// The values in the set.
    fn into_local(self) -> HashSet<T> {
        self.value.local_value()
    }
}

impl<T> crate::crdt_trait::CrdtRemoteOp for RemoteOp<T> {
    open spec fn site_added(&self, site: u32, after: &Self) -> bool {
        set_op_site_added(*self, *after, site)
    }

    fn add_site(&mut self, site: u32)
    {
        RemoteOp::add_site(self, site)
    }
}

/// A run of replicas carries itself.
proof fn lemma_stamps_of_replicas(s: Seq<Replica>)
    ensures
        stamps(s) == s,
{
    assert(stamps(s) =~= s);
}

/// Inserting `x` where the search for it ends keeps replicas in strict
/// order.
proof fn lemma_insert_sorted(reps: Seq<Replica>, x: Replica)
    requires
        replicas_sorted(reps),
    ensures
        match replica_search(reps, x, 0, reps.len() as int) {
            Ok(_) => reps.contains(x),
            Err(i) => 0 <= i <= reps.len() && replicas_sorted(reps.insert(i, x)) && !reps.contains(x),
        },
{
    lemma_replica_search_sorted(reps, x, 0, reps.len() as int);
    match replica_search(reps, x, 0, reps.len() as int) {
        Ok(i) => {
            assert(reps[i] == x);
        },
        Err(i) => {
            let t = reps.insert(i, x);
            assert forall|a: int, b: int| 0 <= a < b < t.len() implies replica_lt(t[a], t[b]) by {
                if b < i {
                    assert(t[a] == reps[a] && t[b] == reps[b]);
                } else if b == i {
                    assert(t[a] == reps[a]);
                } else if a < i {
                    assert(t[a] == reps[a] && t[b] == reps[b - 1]);
                    assert(replica_lt(reps[a], x));
                    assert(replica_lt(x, reps[b - 1]));
                } else if a == i {
                    assert(t[b] == reps[b - 1]);
                } else {
                    assert(t[a] == reps[a - 1] && t[b] == reps[b - 1]);
                }
            }
        },
    }
}

/// Applying an op from another site keeps every value's replicas present
/// and in strict order.
pub proof fn lemma_set_remote_wf<T>(m0: Map<T, Seq<Replica>>, m1: Map<T, Seq<Replica>>, op: RemoteOp<T>, r: Option<LocalOp<T>>)
    requires
        set_wf(m0),
        set_remote_applied(m0, m1, op, r),
    ensures
        set_wf(m1),
{
    match op {
        RemoteOp::Insert { value, replica } => {
            let reps = replicas_of(m0, value);
            lemma_insert_sorted(reps, replica);
            assert forall|v: T| #[trigger] m1.contains_key(v) implies m1[v].len() > 0 && replicas_sorted(m1[v]) by {
                if v != value {
                    assert(m0.contains_key(v));
                }
            }
        },
        RemoteOp::Remove { value, replicas } => {
            if m0.contains_key(value) {
                lemma_stamps_of_replicas(m0[value]);
                lemma_without_stamped(m0[value], replicas@);
                lemma_stamps_of_replicas(without_stamped(m0[value], replicas@));
            }
            assert forall|v: T| #[trigger] m1.contains_key(v) implies m1[v].len() > 0 && replicas_sorted(m1[v]) by {
                if v != value {
                    assert(m0.contains_key(v));
                }
            }
        },
    }
}

/// The replicas of `value` in `m`, none where it is absent.
pub open spec fn replicas_of<T>(m: Map<T, Seq<Replica>>, value: T) -> Seq<Replica> {
    if m.contains_key(value) { m[value] } else { Seq::empty() }
}

/// Executing the same insertion from another site twice leaves the set
/// as executing it once, and the second execution reports nothing.
pub proof fn lemma_set_insert_idempotent<T>(m0: Map<T, Seq<Replica>>, m1: Map<T, Seq<Replica>>, m2: Map<T, Seq<Replica>>, value: T, replica: Replica, r1: Option<LocalOp<T>>, r2: Option<LocalOp<T>>)
    requires
        set_wf(m0),
        set_remote_applied(m0, m1, RemoteOp::Insert { value: value, replica: replica }, r1),
        set_remote_applied(m1, m2, RemoteOp::Insert { value: value, replica: replica }, r2),
    ensures
        m2 == m1,
        r2 is None,
{
    let reps = replicas_of(m0, value);
    lemma_insert_sorted(reps, replica);
    let reps1 = m1[value];
    assert(replicas_of(m1, value) == reps1);
    assert(reps1.contains(replica)) by {
        match replica_search(reps, replica, 0, reps.len() as int) {
            Ok(_) => {},
            Err(i) => {
                assert(reps1[i] == replica);
            },
        }
    }
    lemma_replica_search_sorted(reps1, replica, 0, reps1.len() as int);
    assert(m2 =~= m1);
}

/// Executing the same removal from another site twice leaves the set as
/// executing it once, and the second execution reports nothing.
pub proof fn lemma_set_remove_idempotent<T>(m0: Map<T, Seq<Replica>>, m1: Map<T, Seq<Replica>>, m2: Map<T, Seq<Replica>>, value: T, replicas: Vec<Replica>, r1: Option<LocalOp<T>>, r2: Option<LocalOp<T>>)
    requires
        set_remote_applied(m0, m1, RemoteOp::Remove { value: value, replicas: replicas }, r1),
        set_remote_applied(m1, m2, RemoteOp::Remove { value: value, replicas: replicas }, r2),
        set_wf(m0),
    ensures
        m2 == m1,
        r2 is None,
{
    if m0.contains_key(value) {
        let reps = m0[value];
        lemma_stamps_of_replicas(reps);
        lemma_without_stamped(reps, replicas@);
        let left = without_stamped(reps, replicas@);
        if left.len() > 0 {
            lemma_without_stamped(left, replicas@);
            let again = without_stamped(left, replicas@);
            assert forall|x: Replica| again.contains(x) <==> left.contains(x) by {
                assert(again.contains(x) <==> (left.contains(x) && !stamps(replicas@).contains(x.stamp())));
                assert(left.contains(x) <==> (reps.contains(x) && !stamps(replicas@).contains(x.stamp())));
            }
            lemma_stamped_sorted_unique(again, left);
            assert(m2 =~= m1);
        }
    }
}

/// Two removals of a value from other sites leave the set the same in
/// either order.
pub proof fn lemma_set_removals_commute<T>(m0: Map<T, Seq<Replica>>, value: T, replicas1: Vec<Replica>, replicas2: Vec<Replica>, m1: Map<T, Seq<Replica>>, m12: Map<T, Seq<Replica>>, m2: Map<T, Seq<Replica>>, m21: Map<T, Seq<Replica>>, r1: Option<LocalOp<T>>, r12: Option<LocalOp<T>>, r2: Option<LocalOp<T>>, r21: Option<LocalOp<T>>)
    requires
        set_wf(m0),
        set_remote_applied(m0, m1, RemoteOp::Remove { value: value, replicas: replicas1 }, r1),
        set_remote_applied(m1, m12, RemoteOp::Remove { value: value, replicas: replicas2 }, r12),
        set_remote_applied(m0, m2, RemoteOp::Remove { value: value, replicas: replicas2 }, r2),
        set_remote_applied(m2, m21, RemoteOp::Remove { value: value, replicas: replicas1 }, r21),
    ensures
        m12 == m21,
{
    if m0.contains_key(value) {
        let reps = m0[value];
        lemma_stamps_of_replicas(reps);
        lemma_without_stamped(reps, replicas1@);
        lemma_without_stamped(reps, replicas2@);
        lemma_without_stamped_commute(reps, replicas1@, replicas2@);
        let a1 = without_stamped(reps, replicas1@);
        let b1 = without_stamped(reps, replicas2@);
        crate::replica::lemma_without_stamped_empty(replicas2@);
        crate::replica::lemma_without_stamped_empty(replicas1@);
        if a1.len() == 0 {
            assert(a1 =~= Seq::<Replica>::empty());
        }
        if b1.len() == 0 {
            assert(b1 =~= Seq::<Replica>::empty());
        }
        assert(m12 =~= m21);
    }
}

/// A remote insertion of `replica` into replicas in strict order puts it
/// where the search ends, as `stamped_applied` does with nothing removed.
proof fn lemma_insert_is_stamped_applied(reps: Seq<Replica>, replica: Replica)
    ensures
        stamped_applied(reps, Seq::<Replica>::empty(), replica) == match replica_search(reps, replica, 0, reps.len() as int) {
            Ok(_) => reps,
            Err(i) => reps.insert(i, replica),
        },
{
    lemma_stamps_of_replicas(reps);
    assert(crate::replica::without_stamped(reps, Seq::<Replica>::empty()) == reps);
}

/// Two insertions from other sites leave the set the same in either
/// order.
pub proof fn lemma_set_inserts_commute<T>(m0: Map<T, Seq<Replica>>, value1: T, replica1: Replica, value2: T, replica2: Replica, m1: Map<T, Seq<Replica>>, m12: Map<T, Seq<Replica>>, m2: Map<T, Seq<Replica>>, m21: Map<T, Seq<Replica>>, r1: Option<LocalOp<T>>, r12: Option<LocalOp<T>>, r2: Option<LocalOp<T>>, r21: Option<LocalOp<T>>)
    requires
        set_wf(m0),
        set_remote_applied(m0, m1, RemoteOp::Insert { value: value1, replica: replica1 }, r1),
        set_remote_applied(m1, m12, RemoteOp::Insert { value: value2, replica: replica2 }, r12),
        set_remote_applied(m0, m2, RemoteOp::Insert { value: value2, replica: replica2 }, r2),
        set_remote_applied(m2, m21, RemoteOp::Insert { value: value1, replica: replica1 }, r21),
    ensures
        m12 == m21,
{
    if value1 != value2 {
        assert(replicas_of(m1, value2) == replicas_of(m0, value2));
        assert(replicas_of(m2, value1) == replicas_of(m0, value1));
        assert(m12 =~= m21);
    } else if replica1 == replica2 {
        lemma_set_insert_idempotent(m0, m1, m12, value1, replica1, r1, r12);
        lemma_set_insert_idempotent(m0, m2, m21, value1, replica1, r2, r21);
    } else {
        let reps = replicas_of(m0, value1);
        lemma_insert_sorted(reps, replica1);
        lemma_insert_sorted(reps, replica2);
        lemma_insert_is_stamped_applied(reps, replica1);
        lemma_insert_is_stamped_applied(reps, replica2);
        let a = stamped_applied(reps, Seq::<Replica>::empty(), replica1);
        let b = stamped_applied(reps, Seq::<Replica>::empty(), replica2);
        assert(replicas_of(m1, value1) == a);
        assert(replicas_of(m2, value1) == b);
        lemma_stamps_of_replicas(reps);
        lemma_stamps_of_replicas(a);
        lemma_stamps_of_replicas(b);
        lemma_insert_sorted(a, replica2);
        lemma_insert_sorted(b, replica1);
        lemma_insert_is_stamped_applied(a, replica2);
        lemma_insert_is_stamped_applied(b, replica1);
        assert(stamps(Seq::<Replica>::empty()) =~= Seq::<Replica>::empty());
        lemma_stamped_applied_commute(reps, Seq::<Replica>::empty(), replica1, Seq::<Replica>::empty(), replica2);
        assert(m12 =~= m21);
    }
}

} // verus!
