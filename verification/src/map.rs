//! A map CRDT stores key-value pairs. The values themselves are
//! immutable: a write replaces them. Each key holds the elements that
//! concurrent writes left, ordered by the replica that made them; the
//! first is the key's value.
//!
//! Keys are kept in std's `HashMap`, so the contracts hold for key and
//! value types that behave as a map key needs and clone exactly
//! (`element_model`, which holds of every primitive integer type), and
//! whose `==` is equality (`value_model`).

use crate::error::Error;
use crate::replica::{
    lemma_stamped_applied_commute, lemma_stamped_applied_content, lemma_stamped_applied_idempotent,
    lemma_stamped_applied_without_commute, lemma_without_stamped, lemma_without_stamped_commute, lemma_without_stamped_empty,
    remove_stamped, replica_search, search_stamped, stamped_applied, stamped_sorted, stamps, without_stamped, Replica, Stamped,
};
use crate::set::{copy_of, element_model};
use std::collections::HashMap;
use vstd::prelude::*;
use vstd::std_specs::cmp::PartialEqSpec;
use vstd::std_specs::iter::IteratorSpec;

verus! {

broadcast use vstd::std_specs::hash::group_hash_axioms;

/// What a map key must be able to do.
pub trait Key: std::fmt::Debug + Clone + Eq + std::hash::Hash {}

impl<T: std::fmt::Debug + Clone + Eq + std::hash::Hash> Key for T {}

/// What a map value must be able to do.
pub trait Value: std::fmt::Debug + Clone + PartialEq + Eq + PartialOrd + Ord {}

impl<T: std::fmt::Debug + Clone + PartialEq + Eq + PartialOrd + Ord> Value for T {}

/// A value written at a key, with the replica that wrote it.
#[derive(Debug, PartialEq, Eq, PartialOrd, Ord)]
pub struct Element<V: Value>(pub Replica, pub V);

/// The state of a map: each key with the elements written to it.
#[derive(Debug, PartialEq)]
pub struct MapValue<K: Key, V: Value> {
    pub inner: HashMap<K, Vec<Element<V>>>,
}

/// An operation to send to other sites. Both carry the elements that
/// the write replaced.
#[derive(Debug, Clone, PartialEq)]
pub enum RemoteOp<K: Key, V: Value> {
    Insert { key: K, element: Element<V>, removed: Vec<Element<V>> },
    Remove { key: K, removed: Vec<Element<V>> },
}

/// The effect of a remote operation on this site's map: the key's value
/// now, or its removal.
#[derive(Debug, Clone, PartialEq)]
pub enum LocalOp<K: Key, V: Value> {
    Insert(K, V),
    Remove(K),
}

/// A map CRDT: its state, the replica that names its next operation,
/// and the operations made while it had no site.
#[derive(Debug, PartialEq)]
pub struct MapCrdt<K: Key, V: Value> {
    value: MapValue<K, V>,
    replica: Replica,
    awaiting_site: Vec<RemoteOp<K, V>>,
}

impl<V: Value> Clone for Element<V> {
    fn clone(&self) -> (e: Self)
        ensures
            e.0 == self.0,
            cloned(self.1, e.1),
    {
        Element(self.0, self.1.clone())
    }
}

impl<V: Value> Stamped for Element<V> {
    open spec fn stamp(&self) -> Replica {
        self.0
    }

    fn replica(&self) -> (r: &Replica) {
        &self.0
    }
}

/// Holds of a value type whose `==` is equality and whose `clone` is
/// exact.
pub open spec fn value_model<V: Value>() -> bool {
    &&& V::obeys_eq_spec()
    &&& forall|a: V, b: V| #[trigger] a.eq_spec(&b) <==> a == b
    &&& crate::set::clones_exactly::<V>()
}

/// An element with the same replica and value, for a value type that
/// clones exactly.
fn copy_element<V: Value>(e: &Element<V>) -> (r: Element<V>)
    requires
        crate::set::clones_exactly::<V>(),
    ensures
        r == *e,
{
    Element(e.0, copy_of(&e.1))
}

impl<K: Key, V: Value> View for MapValue<K, V> {
    type V = Map<K, Seq<Element<V>>>;

    closed spec fn view(&self) -> Map<K, Seq<Element<V>>> {
        self.inner@.map_values(|v: Vec<Element<V>>| v@)
    }
}

/// The elements held at `key`, none where it is absent.
pub open spec fn entry_of<K, V: Value>(m: Map<K, Seq<Element<V>>>, key: K) -> Seq<Element<V>> {
    if m.contains_key(key) { m[key] } else { Seq::empty() }
}

/// Every key holds at least one element.
pub open spec fn entries_nonempty<K, V: Value>(m: Map<K, Seq<Element<V>>>) -> bool {
    forall|k: K| #[trigger] m.contains_key(k) ==> m[k].len() > 0
}

/// The key an op is about.
pub open spec fn op_key<K: Key, V: Value>(op: RemoteOp<K, V>) -> K {
    match op {
        RemoteOp::Insert { key, .. } => key,
        RemoteOp::Remove { key, .. } => key,
    }
}

/// The elements an op names as replaced.
pub open spec fn op_removed<K: Key, V: Value>(op: RemoteOp<K, V>) -> Seq<Element<V>> {
    match op {
        RemoteOp::Insert { removed, .. } => removed@,
        RemoteOp::Remove { removed, .. } => removed@,
    }
}

/// What an op does to the elements of its key (none where the key is
/// absent).
pub open spec fn entry_applied<K: Key, V: Value>(es: Seq<Element<V>>, op: RemoteOp<K, V>) -> Seq<Element<V>> {
    match op {
        RemoteOp::Insert { element, removed, .. } => stamped_applied(es, removed@, element),
        RemoteOp::Remove { removed, .. } => without_stamped(es, removed@),
    }
}

/// Neither op replaces the element the other writes, and two writes come
/// from different replicas: the ops were made without seeing each other.
pub open spec fn concurrent_ops<K: Key, V: Value>(op1: RemoteOp<K, V>, op2: RemoteOp<K, V>) -> bool {
    &&& (op1 matches RemoteOp::Insert { element, .. } ==> !stamps(op_removed(op2)).contains(element.0))
    &&& (op2 matches RemoteOp::Insert { element, .. } ==> !stamps(op_removed(op1)).contains(element.0))
    &&& (op1 matches RemoteOp::Insert { element: e1, .. } && op2 matches RemoteOp::Insert { element: e2, .. } ==> e1.0 != e2.0)
}

/// The elements at the op's key are in strict replica order, and the one
/// the op writes, if any, is the only element there with its replica.
pub open spec fn fits<K: Key, V: Value>(m: Map<K, Seq<Element<V>>>, op: RemoteOp<K, V>) -> bool {
    &&& stamped_sorted(entry_of(m, op_key(op)))
    &&& (op matches RemoteOp::Insert { element, .. } ==> forall|x: Element<V>| entry_of(m, op_key(op)).contains(x) && x.0 == element.0 ==> x == element)
}

/// What applying `op` from another site does to the map's view, and
/// what it reports: the key's first value while it holds elements, its
/// removal when an op empties it.
pub open spec fn map_remote_applied<K, V: Value>(before: Map<K, Seq<Element<V>>>, after: Map<K, Seq<Element<V>>>, op: RemoteOp<K, V>, r: Option<LocalOp<K, V>>) -> bool
    where K: Key,
{
    match op {
        RemoteOp::Insert { key, element, removed } => {
            let now = stamped_applied(entry_of(before, key), removed@, element);
            &&& after == before.insert(key, now)
            &&& r == Some(LocalOp::Insert(key, now[0].1))
        },
        RemoteOp::Remove { key, removed } => {
            if !before.contains_key(key) {
                r is None && after == before
            } else {
                let left = without_stamped(before[key], removed@);
                if left.len() == 0 {
                    after == before.remove(key) && r == Some(LocalOp::<K, V>::Remove(key))
                } else {
                    after == before.insert(key, left) && r == Some(LocalOp::Insert(key, left[0].1))
                }
            }
        },
    }
}

/// What `MapValue::add_site` does to the view: the element of a cached
/// insertion gets the site, where the key still holds it.
pub open spec fn map_site_added<K, V: Value>(m: Map<K, Seq<Element<V>>>, op: RemoteOp<K, V>, site: u32) -> Map<K, Seq<Element<V>>>
    where K: Key,
{
    match op {
        RemoteOp::Insert { key, element, .. } => {
            if m.contains_key(key) {
                match replica_search(stamps(m[key]), element.0, 0, m[key].len() as int) {
                    Ok(i) => m.insert(key, m[key].update(i, Element(Replica { site: site, counter: m[key][i].0.counter }, m[key][i].1))),
                    Err(_) => m,
                }
            } else {
                m
            }
        },
        RemoteOp::Remove { .. } => m,
    }
}

/// The view after `MapValue::add_site` for each of `ops` in turn.
pub open spec fn map_sites_added<K, V: Value>(m: Map<K, Seq<Element<V>>>, ops: Seq<RemoteOp<K, V>>, site: u32) -> Map<K, Seq<Element<V>>>
    where K: Key,
    decreases ops.len(),
{
    if ops.len() == 0 {
        m
    } else {
        map_site_added(map_sites_added(m, ops.drop_last(), site), ops.last(), site)
    }
}

/// An element after `add_site`: its replica takes the site if it has
/// none.
pub open spec fn element_with_site<V: Value>(e: Element<V>, site: u32) -> Element<V> {
    Element(crate::set::replica_with_site(e.0, site), e.1)
}

/// `after` is `before` once `RemoteOp::add_site` has run: each of its
/// elements whose replica had no site has `site`.
pub open spec fn map_op_site_added<K, V: Value>(before: RemoteOp<K, V>, after: RemoteOp<K, V>, site: u32) -> bool
    where K: Key,
{
    match (before, after) {
        (RemoteOp::Insert { key: k0, element: e0, removed: r0 }, RemoteOp::Insert { key: k1, element: e1, removed: r1 }) =>
            k1 == k0 && e1 == element_with_site(e0, site) && r1@ == r0@.map_values(|e: Element<V>| element_with_site(e, site)),
        (RemoteOp::Remove { key: k0, removed: r0 }, RemoteOp::Remove { key: k1, removed: r1 }) =>
            k1 == k0 && r1@ == r0@.map_values(|e: Element<V>| element_with_site(e, site)),
        _ => false,
    }
}

/// `op` removes `key`, naming `removed`.
pub open spec fn map_removal<K, V: Value>(op: RemoteOp<K, V>, key: K, removed: Seq<Element<V>>) -> bool
    where K: Key,
{
    op matches RemoteOp::Remove { key: k, removed: r } && k == key && r@ == removed
}

/// `op` writes `element` at `key`, naming `removed`.
pub open spec fn map_write<K, V: Value>(op: RemoteOp<K, V>, key: K, element: Element<V>, removed: Seq<Element<V>>) -> bool
    where K: Key,
{
    op matches RemoteOp::Insert { key: k, element: e, removed: r } && k == key && e == element && r@ == removed
}

/// Gives the site to each element of `elements` whose replica has none.
fn elements_add_site<V: Value>(elements: &mut Vec<Element<V>>, site: u32)
    ensures
        final(elements)@ == old(elements)@.map_values(|e: Element<V>| element_with_site(e, site)),
{
    let ghost start = elements@;
    let mut i: usize = 0;
    while i < elements.len()
        invariant
            i <= elements.len(),
            elements@.len() == start.len(),
            forall|k: int| 0 <= k < i ==> elements@[k] == element_with_site(#[trigger] start[k], site),
            forall|k: int| i <= k < elements@.len() ==> elements@[k] == start[k],
        decreases elements.len() - i,
    {
        if elements[i].0.site == 0 {
            elements[i].0.site = site;
        }
        i = i + 1;
    }
    assert(elements@ =~= start.map_values(|e: Element<V>| element_with_site(e, site)));
}

impl<K: Key, V: Value> RemoteOp<K, V> {
    /// Gives the site to each of the op's elements whose replica has none.
    pub fn add_site(&mut self, site: u32)
        ensures
            map_op_site_added(*old(self), *final(self), site),
    {
        match self {
            RemoteOp::Insert { element, removed, .. } => {
                if element.0.site == 0 {
                    element.0.site = site;
                }
                elements_add_site(removed, site);
            },
            RemoteOp::Remove { removed, .. } => {
                elements_add_site(removed, site);
            },
        }
    }
}

impl<K: Key, V: Value> Clone for MapValue<K, V> {
    /// A copy with the same keys and elements.
    fn clone(&self) -> (r: Self)
        ensures
            r@ == self@,
    {
        MapValue { inner: self.inner.clone() }
    }
}

impl<K: Key, V: Value> MapValue<K, V> {
    /// Every key holds at least one element.
    pub open spec fn wf(&self) -> bool {
        entries_nonempty(self@)
    }

    /// Constructs an empty map.
    pub fn new() -> (m: Self)
        ensures
            m@ == Map::<K, Seq<Element<V>>>::empty(),
            m.wf(),
    {
        MapValue { inner: HashMap::new() }
    }

    /// Writes `value` at `key` as `replica`, replacing the key's
    /// elements, and returns the op that replicates it, naming the
    /// elements replaced. Writing the value that the key already has is
    /// refused with `AlreadyExists`.
    pub fn insert(&mut self, key: K, value: V, replica: &Replica) -> (r: Result<RemoteOp<K, V>, Error>)
        requires
            element_model::<K>(),
            value_model::<V>(),
            old(self).wf(),
        ensures
            final(self).wf(),
            old(self)@.contains_key(key) && old(self)@[key][0].1 == value ==> {
                &&& r == Err::<RemoteOp<K, V>, Error>(Error::AlreadyExists)
                &&& final(self)@ == old(self)@
            },
            !(old(self)@.contains_key(key) && old(self)@[key][0].1 == value) ==> {
                &&& final(self)@ == old(self)@.insert(key, seq![Element(*replica, value)])
                &&& r matches Ok(RemoteOp::Insert { key: k, element, removed })
                &&& k == key && element == Element(*replica, value) && removed@ == entry_of(old(self)@, key)
            },
    {
        match self.inner.get(&key) {
            Some(values) => {
                assert(self@.contains_key(key) && values@ == self@[key]);
                if values[0].1 == value {
                    return Err(Error::AlreadyExists);
                }
            },
            None => {},
        }
        let element = Element(*replica, copy_of(&value));
        let removed = match self.inner.remove(&key) {
            Some(v) => v,
            None => Vec::new(),
        };
        let mut elements: Vec<Element<V>> = Vec::new();
        elements.push(copy_element(&element));
        self.inner.insert(copy_of(&key), elements);
        assert(self@ =~= old(self)@.insert(key, seq![Element(*replica, value)]));
        Ok(RemoteOp::Insert { key: key, element: element, removed: removed })
    }

    /// Removes `key` and returns the op that replicates it, naming the
    /// elements removed. A key not present is refused with
    /// `DoesNotExist`.
    pub fn remove(&mut self, key: &K) -> (r: Result<RemoteOp<K, V>, Error>)
        requires
            element_model::<K>(),
            old(self).wf(),
        ensures
            final(self).wf(),
            !old(self)@.contains_key(*key) ==> r == Err::<RemoteOp<K, V>, Error>(Error::DoesNotExist) && final(self)@ == old(self)@,
            old(self)@.contains_key(*key) ==> {
                &&& final(self)@ == old(self)@.remove(*key)
                &&& r matches Ok(RemoteOp::Remove { key: k, removed })
                &&& k == *key && removed@ == old(self)@[*key]
            },
    {
        let removed = match self.inner.remove(key) {
            Some(r) => r,
            None => {
                assert(self@ =~= old(self)@);
                return Err(Error::DoesNotExist);
            },
        };
        assert(self@ =~= old(self)@.remove(*key));
        Ok(RemoteOp::Remove { key: copy_of(key), removed: removed })
    }

    /// Applies an op from another site and returns its effect here. An
    /// insertion drops the elements it replaced and adds its element in
    /// replica order (once); a removal drops the elements it names, and
    /// the key with them when none is left. While the key holds elements
    /// the effect is its first value; when the op empties it, the key's
    /// removal.
    pub fn execute_remote(&mut self, op: &RemoteOp<K, V>) -> (r: Option<LocalOp<K, V>>)
        requires
            element_model::<K>(),
            value_model::<V>(),
            old(self).wf(),
        ensures
            final(self).wf(),
            map_remote_applied(old(self)@, final(self)@, *op, r),
    {
        match op {
            RemoteOp::Insert { key, element, removed } => {
                let mut elements = match self.inner.remove(key) {
                    Some(v) => v,
                    None => Vec::new(),
                };
                assert(elements@ == entry_of(old(self)@, *key));
                remove_stamped(&mut elements, removed);
                let ghost left = elements@;
                if let Err(index) = search_stamped(&elements, &element.0) {
                    elements.insert(index, copy_element(element));
                }
                let first = copy_of(&elements[0].1);
                self.inner.insert(copy_of(key), elements);
                assert(self@ =~= old(self)@.insert(*key, elements@));
                Some(LocalOp::Insert(copy_of(key), first))
            },
            RemoteOp::Remove { key, removed } => {
                let mut elements = match self.inner.remove(key) {
                    Some(v) => v,
                    None => {
                        assert(self@ =~= old(self)@);
                        return None;
                    },
                };
                remove_stamped(&mut elements, removed);
                if elements.len() == 0 {
                    assert(self@ =~= old(self)@.remove(*key));
                    Some(LocalOp::Remove(copy_of(key)))
                } else {
                    let first = copy_of(&elements[0].1);
                    self.inner.insert(copy_of(key), elements);
                    assert(self@ =~= old(self)@.insert(*key, without_stamped(old(self)@[*key], removed@)));
                    Some(LocalOp::Insert(copy_of(key), first))
                }
            },
        }
    }

    /// Gives the site to the element that a cached insertion wrote while
    /// the map had none; other ops change nothing.
    pub fn add_site(&mut self, op: &RemoteOp<K, V>, site: u32)
        requires
            element_model::<K>(),
            old(self).wf(),
        ensures
            final(self).wf(),
            final(self)@ == map_site_added(old(self)@, *op, site),
    {
        if let RemoteOp::Insert { key, element, .. } = op {
            let mut elements = match self.inner.remove(key) {
                Some(v) => v,
                None => {
                    assert(self@ =~= old(self)@);
                    return;
                },
            };
            if let Ok(index) = search_stamped(&elements, &element.0) {
                elements[index].0.site = site;
            }
            self.inner.insert(copy_of(key), elements);
            assert(self@ =~= map_site_added(old(self)@, *op, site));
        }
    }

    /// The map from each key to its value: the first of its elements.
    pub fn local_value(&self) -> (m: HashMap<K, V>)
        requires
            element_model::<K>(),
            value_model::<V>(),
            self.wf(),
        ensures
            m@ == self@.map_values(|es: Seq<Element<V>>| es[0].1),
    {
        let mut hash_map: HashMap<K, V> = HashMap::new();
        let ghost m = self.inner@;
        for pair in it: self.inner.iter()
            invariant
                element_model::<K>(),
                value_model::<V>(),
                self.wf(),
                m == self.inner@,
                it.seq() == vstd::std_specs::hash::spec_hash_map_iter(&self.inner).remaining(),
                forall|k: K| hash_map@.contains_key(k) <==> exists|i: int| 0 <= i < it.index() && *it.seq()[i].0 == k,
                forall|k: K| #[trigger] hash_map@.contains_key(k) ==> m.contains_key(k) && hash_map@[k] == m[k]@[0].1,
        {
            let (key, elements) = pair;
            proof {
                vstd::std_specs::hash::axiom_spec_hash_map_iter(&self.inner);
                let v = vstd::std_specs::hash::spec_hash_map_iter(&self.inner).remaining();
                assert(v[it.index() as int] == pair);
                assert(m.contains_key(*key) && m[*key] == *elements);
                assert(self@.contains_key(*key));
                assert(self@[*key] == elements@);
            }
            let ghost before = hash_map@;
            hash_map.insert(copy_of(key), copy_of(&elements[0].1));
            proof {
                assert forall|k: K| hash_map@.contains_key(k) <==> exists|i: int| 0 <= i < it.index() + 1 && *it.seq()[i].0 == k by {
                    if k == *key {
                        assert(*it.seq()[it.index() as int].0 == k);
                    }
                    if exists|i: int| 0 <= i < it.index() + 1 && *it.seq()[i].0 == k {
                        let i = choose|i: int| 0 <= i < it.index() + 1 && *it.seq()[i].0 == k;
                        if i < it.index() {
                            assert(before.contains_key(k));
                        }
                    }
                }
            }
        }
        proof {
            vstd::std_specs::hash::axiom_spec_hash_map_iter(&self.inner);
            let v = vstd::std_specs::hash::spec_hash_map_iter(&self.inner).remaining();
            assert forall|k: K| hash_map@.contains_key(k) <==> self@.contains_key(k) by {
                if m.contains_key(k) {
                    assert(v.contains((&k, &m[k])));
                    let i = choose|i: int| 0 <= i < v.len() && v[i] == (&k, &m[k]);
                    assert(*v[i].0 == k);
                }
            }
            assert(hash_map@ =~= self@.map_values(|es: Seq<Element<V>>| es[0].1));
        }
        hash_map
    }
}

impl<K: Key, V: Value> MapCrdt<K, V> {
    /// The map's state.
    pub closed spec fn state(&self) -> MapValue<K, V> {
        self.value
    }

    /// The replica that names the map's next operation.
    pub closed spec fn replica_of(&self) -> Replica {
        self.replica
    }

    /// The operations made while the map had no site.
    pub closed spec fn awaiting(&self) -> Seq<RemoteOp<K, V>> {
        self.awaiting_site@
    }

    /// Constructs an empty map with site 1 and counter 0.
    pub fn new() -> (m: Self)
        ensures
            m.state()@ == Map::<K, Seq<Element<V>>>::empty(),
            m.state().wf(),
            m.replica_of() == (Replica { site: 1, counter: 0 }),
            m.awaiting().len() == 0,
    {
        let replica = Replica::new(1, 0);
        let value = MapValue::new();
        MapCrdt { replica: replica, value: value, awaiting_site: Vec::new() }
    }

    /// Constructs a map from a state and a site (0 for none), with
    /// counter 0.
    pub fn from_value(value: MapValue<K, V>, site: u32) -> (m: Self)
        ensures
            m.state() == value,
            m.replica_of() == (Replica { site: site, counter: 0 }),
            m.awaiting().len() == 0,
    {
        let replica = Replica::new(site, 0);
        MapCrdt { value: value, replica: replica, awaiting_site: Vec::new() }
    }

    /// Returns true iff the map has the key.
    pub fn contains_key(&self, key: &K) -> (b: bool)
        requires
            element_model::<K>(),
        ensures
            b == self.state()@.contains_key(*key),
    {
        self.value.inner.contains_key(key)
    }

    /// The value at `key`: the first of its elements.
    pub fn get(&self, key: &K) -> (r: Option<&V>)
        requires
            element_model::<K>(),
            self.state().wf(),
        ensures
            self.state()@.contains_key(*key) ==> r == Some(&self.state()@[*key][0].1),
            !self.state()@.contains_key(*key) ==> r is None,
    {
        match self.value.inner.get(key) {
            Some(elements) => {
                assert(self.value@.contains_key(*key) && elements@ == self.value@[*key]);
                Some(&elements[0].1)
            },
            None => None,
        }
    }

    /// The map's site.
    pub fn site(&self) -> (s: u32)
        ensures
            s == self.replica_of().site,
    {
        self.replica.site
    }

    /// The map's state.
    pub fn value(&self) -> (v: &MapValue<K, V>)
        ensures
            *v == self.state(),
    {
        &self.value
    }

    /// A copy of the map's state.
    pub fn clone_value(&self) -> (v: MapValue<K, V>)
        ensures
            v@ == self.state()@,
    {
        self.value.clone()
    }

    /// Counts an operation: the counter moves on; with a site the op is
    /// returned, without one it is kept for later and `AwaitingSite` is
    /// returned.
    fn after_op(&mut self, op: RemoteOp<K, V>) -> (r: Result<RemoteOp<K, V>, Error>)
        requires
            old(self).replica_of().counter < u32::MAX,
        ensures
            final(self).state() == old(self).state(),
            final(self).replica_of() == (Replica { site: old(self).replica_of().site, counter: (old(self).replica_of().counter + 1) as u32 }),
            old(self).replica_of().site != 0 ==> r == Ok::<RemoteOp<K, V>, Error>(op) && final(self).awaiting() == old(self).awaiting(),
            old(self).replica_of().site == 0 ==> r == Err::<RemoteOp<K, V>, Error>(Error::AwaitingSite) && final(self).awaiting() == old(self).awaiting().push(op),
    {
        self.replica.counter = self.replica.counter + 1;
        if self.replica.site != 0 {
            return Ok(op);
        }
        self.awaiting_site.push(op);
        Err(Error::AwaitingSite)
    }

    /// Writes `value` at `key` and returns the op that replicates it
    /// (see `MapValue::insert`). Without a site, the op is kept for later
    /// and `AwaitingSite` is returned.
    pub fn insert(&mut self, key: K, value: V) -> (r: Result<RemoteOp<K, V>, Error>)
        requires
            element_model::<K>(),
            value_model::<V>(),
            old(self).state().wf(),
            old(self).replica_of().counter < u32::MAX,
        ensures
            final(self).state().wf(),
            old(self).state()@.contains_key(key) && old(self).state()@[key][0].1 == value ==> {
                &&& r == Err::<RemoteOp<K, V>, Error>(Error::AlreadyExists)
                &&& final(self).state()@ == old(self).state()@
                &&& final(self).replica_of() == old(self).replica_of()
                &&& final(self).awaiting() == old(self).awaiting()
            },
            !(old(self).state()@.contains_key(key) && old(self).state()@[key][0].1 == value) ==> exists|op: RemoteOp<K, V>| {
                &&& #[trigger] map_write(op, key, Element(old(self).replica_of(), value), entry_of(old(self).state()@, key))
                &&& final(self).state()@ == old(self).state()@.insert(key, seq![Element(old(self).replica_of(), value)])
                &&& final(self).replica_of() == (Replica { site: old(self).replica_of().site, counter: (old(self).replica_of().counter + 1) as u32 })
                &&& old(self).replica_of().site != 0 ==> r == Ok::<RemoteOp<K, V>, Error>(op) && final(self).awaiting() == old(self).awaiting()
                &&& old(self).replica_of().site == 0 ==> r == Err::<RemoteOp<K, V>, Error>(Error::AwaitingSite) && final(self).awaiting() == old(self).awaiting().push(op)
            },
    {
        let op = match self.value.insert(key, value, &self.replica) {
            Ok(op) => op,
            Err(e) => return Err(e),
        };
        let ghost sent = op;
        let r = self.after_op(op);
        assert(map_write(sent, key, Element(old(self).replica_of(), value), entry_of(old(self).state()@, key)));
        r
    }

    /// Removes `key` and returns the op that replicates it (see
    /// `MapValue::remove`). Without a site, the op is kept for later and
    /// `AwaitingSite` is returned.
    pub fn remove(&mut self, key: &K) -> (r: Result<RemoteOp<K, V>, Error>)
        requires
            element_model::<K>(),
            old(self).state().wf(),
            old(self).replica_of().counter < u32::MAX,
        ensures
            final(self).state().wf(),
            !old(self).state()@.contains_key(*key) ==> {
                &&& r == Err::<RemoteOp<K, V>, Error>(Error::DoesNotExist)
                &&& final(self).state()@ == old(self).state()@
                &&& final(self).replica_of() == old(self).replica_of()
                &&& final(self).awaiting() == old(self).awaiting()
            },
            old(self).state()@.contains_key(*key) ==> exists|op: RemoteOp<K, V>| {
                &&& #[trigger] map_removal(op, *key, old(self).state()@[*key])
                &&& final(self).state()@ == old(self).state()@.remove(*key)
                &&& final(self).replica_of() == (Replica { site: old(self).replica_of().site, counter: (old(self).replica_of().counter + 1) as u32 })
                &&& old(self).replica_of().site != 0 ==> r == Ok::<RemoteOp<K, V>, Error>(op) && final(self).awaiting() == old(self).awaiting()
                &&& old(self).replica_of().site == 0 ==> r == Err::<RemoteOp<K, V>, Error>(Error::AwaitingSite) && final(self).awaiting() == old(self).awaiting().push(op)
            },
    {
        let op = match self.value.remove(key) {
            Ok(op) => op,
            Err(e) => return Err(e),
        };
        let ghost sent = op;
        let r = self.after_op(op);
        assert(map_removal(sent, *key, old(self).state()@[*key]));
        r
    }

    /// Applies an op from another site (see `MapValue::execute_remote`).
    pub fn execute_remote(&mut self, op: &RemoteOp<K, V>) -> (r: Option<LocalOp<K, V>>)
        requires
            element_model::<K>(),
            value_model::<V>(),
            old(self).state().wf(),
        ensures
            final(self).state().wf(),
            map_remote_applied(old(self).state()@, final(self).state()@, *op, r),
            final(self).replica_of() == old(self).replica_of(),
            final(self).awaiting() == old(self).awaiting(),
    {
        self.value.execute_remote(op)
    }

    /// Gives the map a site: the ops kept while it had none get the site
    /// (and so do the elements their writes made), and are returned in
    /// order. A map that has a site refuses with `AlreadyHasSite`.
    pub fn add_site(&mut self, site: u32) -> (r: Result<Vec<RemoteOp<K, V>>, Error>)
        requires
            element_model::<K>(),
            old(self).state().wf(),
        ensures
            final(self).state().wf(),
            old(self).replica_of().site != 0 ==> r == Err::<Vec<RemoteOp<K, V>>, Error>(Error::AlreadyHasSite)
                && final(self).state()@ == old(self).state()@ && final(self).awaiting() == old(self).awaiting(),
            old(self).replica_of().site == 0 ==> match r {
                Ok(ops) => {
                    &&& ops@.len() == old(self).awaiting().len()
                    &&& forall|k: int| 0 <= k < ops@.len() ==> map_op_site_added(old(self).awaiting()[k], #[trigger] ops@[k], site)
                    &&& final(self).state()@ == map_sites_added(old(self).state()@, old(self).awaiting(), site)
                    &&& final(self).awaiting().len() == 0
                },
                Err(_) => false,
            },
            old(self).replica_of().site != 0 ==> final(self).replica_of() == old(self).replica_of(),
            old(self).replica_of().site == 0 ==> final(self).replica_of() == (Replica { site: site, counter: old(self).replica_of().counter }),
    {
        if self.replica.site != 0 {
            return Err(Error::AlreadyHasSite);
        }
        let mut ops: Vec<RemoteOp<K, V>> = Vec::new();
        std::mem::swap(&mut ops, &mut self.awaiting_site);
        let ghost orig = ops@;
        let ghost start = self.value@;
        let mut i: usize = 0;
        while i < ops.len()
            invariant
                element_model::<K>(),
                self.value.wf(),
                i <= ops.len(),
                ops@.len() == orig.len(),
                forall|k: int| 0 <= k < i ==> map_op_site_added(orig[k], #[trigger] ops@[k], site),
                forall|k: int| i <= k < ops@.len() ==> ops@[k] == orig[k],
                self.value@ == map_sites_added(start, orig.subrange(0, i as int), site),
                self.replica == old(self).replica_of(),
                self.awaiting_site@.len() == 0,
            decreases ops.len() - i,
        {
            self.value.add_site(&ops[i], site);
            ops[i].add_site(site);
            assert(orig.subrange(0, i + 1).drop_last() =~= orig.subrange(0, i as int));
            i = i + 1;
        }
        assert(orig.subrange(0, orig.len() as int) =~= orig);
        self.replica.site = site;
        Ok(ops)
    }
}

impl<K: Key, V: Value> crate::crdt_trait::CrdtValue for MapValue<K, V> {
    type RemoteOp = RemoteOp<K, V>;

    /// The key and value types behave as the map's contracts need, and
    /// every key holds an element.
    open spec fn ready(&self) -> bool {
        element_model::<K>() && value_model::<V>() && self.wf()
    }

    open spec fn site_taken(v: Map<K, Seq<Element<V>>>, op: RemoteOp<K, V>, site: u32) -> Map<K, Seq<Element<V>>> {
        map_site_added(v, op, site)
    }

    fn add_site(&mut self, op: &RemoteOp<K, V>, site: u32) {
        MapValue::add_site(self, op, site)
    }
}

impl<K: Key, V: Value> crate::crdt_trait::Crdt for MapCrdt<K, V> {
    type LocalValue = HashMap<K, V>;
    type Value = MapValue<K, V>;
    type RemoteOp = RemoteOp<K, V>;
    type LocalOp = LocalOp<K, V>;

    closed spec fn site_view(&self) -> u32 {
        self.replica.site
    }

    closed spec fn value_view(&self) -> MapValue<K, V> {
        self.value
    }

    closed spec fn awaiting_view(&self) -> Seq<RemoteOp<K, V>> {
        self.awaiting_site@
    }

    fn value(&mut self) -> (r: &mut MapValue<K, V>) {
        &mut self.value
    }

    fn site(&self) -> (s: u32) {
        self.replica.site
    }

    fn set_site(&mut self, site: u32) {
        self.replica.site = site;
    }

    fn awaiting_site(&mut self) -> (r: &mut Vec<RemoteOp<K, V>>) {
        &mut self.awaiting_site
    }

    /// Each key with its first value.
    fn into_local(self) -> HashMap<K, V> {
        self.value.local_value()
    }
}

impl<K: Key, V: Value> crate::crdt_trait::CrdtRemoteOp for RemoteOp<K, V> {
    open spec fn site_added(&self, site: u32, after: &Self) -> bool {
        map_op_site_added(*self, *after, site)
    }

    fn add_site(&mut self, site: u32)
    {
        RemoteOp::add_site(self, site)
    }
}

/// Applying an op changes only its key, whose elements become what the
/// op makes of them; the key is present while it holds elements.
pub proof fn lemma_map_remote_entries<K: Key, V: Value>(m0: Map<K, Seq<Element<V>>>, m1: Map<K, Seq<Element<V>>>, op: RemoteOp<K, V>, r: Option<LocalOp<K, V>>)
    requires
        map_remote_applied(m0, m1, op, r),
        entries_nonempty(m0),
    ensures
        entries_nonempty(m1),
        forall|k: K| #[trigger] entry_of(m1, k) == if k == op_key(op) { entry_applied(entry_of(m0, k), op) } else { entry_of(m0, k) },
{
    match op {
        RemoteOp::Insert { key, element, removed } => {
            lemma_stamped_applied_content_len(entry_of(m0, key), removed@, element);
        },
        RemoteOp::Remove { key, removed } => {
            if !m0.contains_key(key) {
                lemma_without_stamped_empty(removed@);
            }
        },
    }
}

/// A value after an update holds at least one element.
proof fn lemma_stamped_applied_content_len<V: Value>(s: Seq<Element<V>>, removed: Seq<Element<V>>, e: Element<V>)
    ensures
        stamped_applied(s, removed, e).len() > 0,
{
    let w = without_stamped(s, removed);
    crate::replica::lemma_replica_search_bounds(stamps(w), e.0, 0, w.len() as int);
}

/// Maps whose keys hold elements are equal when every key holds the same
/// elements.
proof fn lemma_map_entries_equal<K, V: Value>(a: Map<K, Seq<Element<V>>>, b: Map<K, Seq<Element<V>>>)
    requires
        entries_nonempty(a),
        entries_nonempty(b),
        forall|k: K| #[trigger] entry_of(a, k) == entry_of(b, k),
    ensures
        a == b,
{
    assert forall|k: K| a.contains_key(k) <==> b.contains_key(k) by {
        assert(entry_of(a, k) == entry_of(b, k));
    }
    assert forall|k: K| a.contains_key(k) implies a[k] == b[k] by {
        assert(entry_of(a, k) == entry_of(b, k));
    }
    assert(a =~= b);
}

/// Executing the same op from another site twice leaves the map as
/// executing it once, where the elements at its key are in strict replica
/// order; while the key stays, the second execution reports what the
/// first did.
pub proof fn lemma_map_execute_remote_idempotent<K: Key, V: Value>(m0: Map<K, Seq<Element<V>>>, m1: Map<K, Seq<Element<V>>>, m2: Map<K, Seq<Element<V>>>, op: RemoteOp<K, V>, r1: Option<LocalOp<K, V>>, r2: Option<LocalOp<K, V>>)
    requires
        map_remote_applied(m0, m1, op, r1),
        map_remote_applied(m1, m2, op, r2),
        stamped_sorted(entry_of(m0, op_key(op))),
    ensures
        m2 == m1,
        m1.contains_key(op_key(op)) ==> r2 == r1,
{
    match op {
        RemoteOp::Insert { key, element, removed } => {
            lemma_stamped_applied_idempotent(entry_of(m0, key), removed@, element);
            assert(m2 =~= m1);
        },
        RemoteOp::Remove { key, removed } => {
            if m0.contains_key(key) {
                let left = without_stamped(m0[key], removed@);
                lemma_without_stamped(m0[key], removed@);
                if left.len() > 0 {
                    lemma_without_stamped(left, removed@);
                    let again = without_stamped(left, removed@);
                    assert forall|x: Element<V>| again.contains(x) <==> left.contains(x) by {
                        assert(again.contains(x) <==> (left.contains(x) && !stamps(removed@).contains(x.0)));
                        assert(left.contains(x) <==> (m0[key].contains(x) && !stamps(removed@).contains(x.0)));
                    }
                    crate::replica::lemma_stamped_sorted_unique(again, left);
                    assert(m2 =~= m1);
                }
            }
        },
    }
}

/// Two ops made without seeing each other leave the map the same
/// whichever arrives first, where the elements at their keys are in
/// strict replica order and the element each writes is the only one there
/// with its replica.
pub proof fn lemma_map_concurrent_ops_commute<K: Key, V: Value>(
    m0: Map<K, Seq<Element<V>>>,
    op1: RemoteOp<K, V>,
    op2: RemoteOp<K, V>,
    m1: Map<K, Seq<Element<V>>>,
    m12: Map<K, Seq<Element<V>>>,
    m2: Map<K, Seq<Element<V>>>,
    m21: Map<K, Seq<Element<V>>>,
    r1: Option<LocalOp<K, V>>,
    r12: Option<LocalOp<K, V>>,
    r2: Option<LocalOp<K, V>>,
    r21: Option<LocalOp<K, V>>,
)
    requires
        entries_nonempty(m0),
        fits(m0, op1),
        fits(m0, op2),
        concurrent_ops(op1, op2),
        map_remote_applied(m0, m1, op1, r1),
        map_remote_applied(m1, m12, op2, r12),
        map_remote_applied(m0, m2, op2, r2),
        map_remote_applied(m2, m21, op1, r21),
    ensures
        m12 == m21,
{
    lemma_map_remote_entries(m0, m1, op1, r1);
    lemma_map_remote_entries(m1, m12, op2, r12);
    lemma_map_remote_entries(m0, m2, op2, r2);
    lemma_map_remote_entries(m2, m21, op1, r21);
    let k1 = op_key(op1);
    let k2 = op_key(op2);
    if k1 == k2 {
        let s = entry_of(m0, k1);
        assert(entry_of(m12, k1) == entry_applied(entry_applied(s, op1), op2));
        assert(entry_of(m21, k1) == entry_applied(entry_applied(s, op2), op1));
        match (op1, op2) {
            (RemoteOp::Insert { element: e1, removed: x1, .. }, RemoteOp::Insert { element: e2, removed: x2, .. }) => {
                lemma_stamped_applied_commute(s, x1@, e1, x2@, e2);
            },
            (RemoteOp::Insert { element: e1, removed: x1, .. }, RemoteOp::Remove { removed: x2, .. }) => {
                lemma_stamped_applied_without_commute(s, x1@, e1, x2@);
            },
            (RemoteOp::Remove { removed: x1, .. }, RemoteOp::Insert { element: e2, removed: x2, .. }) => {
                lemma_stamped_applied_without_commute(s, x2@, e2, x1@);
            },
            (RemoteOp::Remove { removed: x1, .. }, RemoteOp::Remove { removed: x2, .. }) => {
                lemma_without_stamped_commute(s, x1@, x2@);
            },
        }
    }
    assert forall|k: K| #[trigger] entry_of(m12, k) == entry_of(m21, k) by {
        assert(entry_of(m12, k) == if k == k2 { entry_applied(entry_of(m1, k), op2) } else { entry_of(m1, k) });
        assert(entry_of(m21, k) == if k == k1 { entry_applied(entry_of(m2, k), op1) } else { entry_of(m2, k) });
        assert(entry_of(m1, k) == if k == k1 { entry_applied(entry_of(m0, k), op1) } else { entry_of(m0, k) });
        assert(entry_of(m2, k) == if k == k2 { entry_applied(entry_of(m0, k), op2) } else { entry_of(m0, k) });
    }
    lemma_map_entries_equal(m12, m21);
}

} // verus!
