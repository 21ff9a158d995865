//! A `Replica` names one operation by the site that made it and that
//! site's counter; `Tombstones` remembers, per site, the highest counter
//! whose operations have been seen (and removed).

use std::collections::HashMap;
use vstd::std_specs::iter::IteratorSpec;
use vstd::prelude::*;

verus! {

broadcast use vstd::std_specs::hash::group_hash_axioms;

/// A site and a counter: together they identify one operation.
#[derive(Clone, Copy, Debug, PartialEq, Eq, Structural, PartialOrd, Ord, Hash)]
pub struct Replica {
    pub site: u32,
    pub counter: u32,
}

/// Per site, the highest counter recorded so far.
#[derive(Debug, PartialEq)]
pub struct Tombstones {
    inner: HashMap<u32, u32>,
}

/// The larger of two counters.
pub open spec fn max_counter(a: u32, b: u32) -> u32 {
    if a >= b { a } else { b }
}

/// `m` records `site` with a counter of at least `counter`.
pub open spec fn covers(m: Map<u32, u32>, site: u32, counter: u32) -> bool {
    m.contains_key(site) && m[site] >= counter
}

/// `m` after recording that `site` has reached `counter`: the entry for
/// `site` becomes the larger of its old value and `counter`.
pub open spec fn record(m: Map<u32, u32>, site: u32, counter: u32) -> Map<u32, u32> {
    if m.contains_key(site) {
        m.insert(site, max_counter(m[site], counter))
    } else {
        m.insert(site, counter)
    }
}

/// The pointwise maximum of two tombstone maps.
pub open spec fn join(a: Map<u32, u32>, b: Map<u32, u32>) -> Map<u32, u32> {
    Map::new(
        |k: u32| a.contains_key(k) || b.contains_key(k),
        |k: u32|
            if a.contains_key(k) && b.contains_key(k) {
                max_counter(a[k], b[k])
            } else if a.contains_key(k) {
                a[k]
            } else {
                b[k]
            },
    )
}

/// The map made by recording each pair of `pairs` in order, starting from `m`.
pub open spec fn record_all(m: Map<u32, u32>, pairs: Seq<(u32, u32)>) -> Map<u32, u32>
    decreases pairs.len(),
{
    if pairs.len() == 0 {
        m
    } else {
        record(record_all(m, pairs.drop_last()), pairs.last().0, pairs.last().1)
    }
}

impl Replica {
    /// Constructs a replica from a site and a counter.
    pub fn new(site: u32, counter: u32) -> (r: Self)
        ensures
            r.site == site,
            r.counter == counter,
    {
        Replica { site: site, counter: counter }
    }
}

impl View for Tombstones {
    type V = Map<u32, u32>;

    closed spec fn view(&self) -> Map<u32, u32> {
        self.inner@
    }
}

impl Clone for Tombstones {
    fn clone(&self) -> (t: Self)
        ensures
            t@ == self@,
    {
        Tombstones { inner: self.inner.clone() }
    }
}

impl Tombstones {
    /// Constructs an empty set of tombstones.
    pub fn new() -> (t: Self)
        ensures
            t@ == Map::<u32, u32>::empty(),
    {
        Tombstones { inner: HashMap::new() }
    }

    /// Returns true iff the replica's site has been recorded with a
    /// counter at least as large as the replica's.
    pub fn contains(&self, replica: &Replica) -> (b: bool)
        ensures
            b == covers(self@, replica.site, replica.counter),
    {
        self.contains_pair(replica.site, replica.counter)
    }

    /// Returns true iff `site` has been recorded with a counter of at
    /// least `counter`.
    pub fn contains_pair(&self, site: u32, counter: u32) -> (b: bool)
        ensures
            b == covers(self@, site, counter),
    {
        match self.inner.get(&site) {
            Some(site_counter) => *site_counter >= counter,
            None => false,
        }
    }

    /// Records the replica's site and counter.
    pub fn insert(&mut self, replica: &Replica)
        ensures
            final(self)@ == record(old(self)@, replica.site, replica.counter),
    {
        self.insert_pair(replica.site, replica.counter)
    }

    /// Records that `site` has reached `counter`.
    pub fn insert_pair(&mut self, site: u32, counter: u32)
        ensures
            final(self)@ == record(old(self)@, site, counter),
    {
        let value = match self.inner.get(&site) {
            Some(c) => if *c >= counter { *c } else { counter },
            None => counter,
        };
        self.inner.insert(site, value);
    }

    /// Merges another set of tombstones into this one: afterwards each
    /// site holds the larger of its two counters.
    pub fn merge(&mut self, other: Tombstones)
        ensures
            final(self)@ == join(old(self)@, other@),
    {
        let ghost start = self.inner@;
        let ghost b = other.inner@;
        let ghost mut seen: Seq<(u32, u32)> = Seq::empty();
        for p in it: other.inner.iter()
            invariant
                seen.len() == it.index(),
                b == other.inner@,
                it.seq() == vstd::std_specs::hash::spec_hash_map_iter(&other.inner).remaining(),
                forall|i: int| 0 <= i < seen.len() ==> seen[i].0 == *it.seq()[i].0 && seen[i].1 == *it.seq()[i].1,
                forall|i: int| 0 <= i < seen.len() ==> b.contains_key(#[trigger] seen[i].0) && b[seen[i].0] == seen[i].1,
                self.inner@ == record_all(start, seen),
        {
            let (site, counter) = p;
            proof {
                let v = vstd::std_specs::hash::spec_hash_map_iter(&other.inner).remaining();
                let i = seen.len() as int;
                vstd::std_specs::hash::axiom_spec_hash_map_iter(&other.inner);
                assert(0 <= i < v.len());
                assert(v[i] == p);
                assert(b.contains_key(*v[i].0) && b[*v[i].0] == *v[i].1);
                let old_seen = seen;
                seen = seen.push((*site, *counter));
                assert(seen.drop_last() =~= old_seen);
            }
            self.insert_pair(*site, *counter);
        }
        proof {
            vstd::std_specs::hash::axiom_spec_hash_map_iter(&other.inner);
            lemma_record_all_join(start, seen, b);
            assert forall|k: u32| b.contains_key(k) implies pair_keys(seen).contains(k) by {
                let v = vstd::std_specs::hash::spec_hash_map_iter(&other.inner).remaining();
                assert(v.contains((&k, &b[k])));
                let i = choose|i: int| 0 <= i < v.len() && v[i] == (&k, &b[k]);
                assert(seen[i].0 == k);
                assert(pair_keys(seen).contains(k));
            }
            assert(b.restrict(pair_keys(seen)) =~= b);
        }
    }
}

/// Merging tombstones does not depend on their order.
pub proof fn lemma_join_commutative(a: Map<u32, u32>, b: Map<u32, u32>)
    ensures
        join(a, b) == join(b, a),
{
    assert(join(a, b) =~= join(b, a));
}

/// Merging tombstones is associative.
pub proof fn lemma_join_associative(a: Map<u32, u32>, b: Map<u32, u32>, c: Map<u32, u32>)
    ensures
        join(join(a, b), c) == join(a, join(b, c)),
{
    assert(join(join(a, b), c) =~= join(a, join(b, c)));
}

/// Merging tombstones with themselves changes nothing.
pub proof fn lemma_join_idempotent(a: Map<u32, u32>)
    ensures
        join(a, a) == a,
{
    assert(join(a, a) =~= a);
}

/// A merge covers exactly what either side covers.
pub proof fn lemma_join_covers(a: Map<u32, u32>, b: Map<u32, u32>, site: u32, counter: u32)
    ensures
        covers(join(a, b), site, counter) <==> (covers(a, site, counter) || covers(b, site, counter)),
{
}

/// After a replica is recorded it is covered, and whatever was covered
/// before stays covered.
pub proof fn lemma_record_covers(m: Map<u32, u32>, site: u32, counter: u32, s: u32, c: u32)
    ensures
        covers(record(m, site, counter), site, counter),
        covers(m, s, c) ==> covers(record(m, site, counter), s, c),
        covers(record(m, site, counter), s, c) ==> (covers(m, s, c) || (s == site && c <= counter)),
{
}

/// The sites named by a sequence of (site, counter) pairs.
pub open spec fn pair_keys(pairs: Seq<(u32, u32)>) -> Set<u32> {
    Set::new(|k: u32| exists|i: int| 0 <= i < pairs.len() && #[trigger] pairs[i].0 == k)
}

/// Recording pairs taken from `b` one by one joins `m` with the part of
/// `b` that those pairs name.
proof fn lemma_record_all_join(m: Map<u32, u32>, pairs: Seq<(u32, u32)>, b: Map<u32, u32>)
    requires
        forall|i: int| 0 <= i < pairs.len() ==> b.contains_key(#[trigger] pairs[i].0) && b[pairs[i].0] == pairs[i].1,
    ensures
        record_all(m, pairs) == join(m, b.restrict(pair_keys(pairs))),
    decreases pairs.len(),
{
    if pairs.len() == 0 {
        assert(b.restrict(pair_keys(pairs)) =~= Map::empty());
        assert(join(m, Map::empty()) =~= m);
    } else {
        let rest = pairs.drop_last();
        assert forall|i: int| 0 <= i < rest.len() implies b.contains_key(#[trigger] rest[i].0) && b[rest[i].0] == rest[i].1 by {
            assert(rest[i] == pairs[i]);
        }
        lemma_record_all_join(m, rest, b);
        let (k, v) = pairs.last();
        assert(pairs[pairs.len() - 1].0 == k);
        assert forall|x: u32| #[trigger] pair_keys(pairs).contains(x) <==> (pair_keys(rest).contains(x) || x == k) by {
            if pair_keys(pairs).contains(x) {
                let i = choose|i: int| 0 <= i < pairs.len() && #[trigger] pairs[i].0 == x;
                if i < pairs.len() - 1 {
                    assert(rest[i] == pairs[i]);
                }
            }
            if pair_keys(rest).contains(x) {
                let i = choose|i: int| 0 <= i < rest.len() && #[trigger] rest[i].0 == x;
                assert(rest[i] == pairs[i]);
            }
        }
        assert(record_all(m, pairs) =~= join(m, b.restrict(pair_keys(pairs))));
    }
}

/// The order of replicas: by site, then by counter.
pub open spec fn replica_lt(a: Replica, b: Replica) -> bool {
    a.site < b.site || (a.site == b.site && a.counter < b.counter)
}

/// The replicas strictly increase.
pub open spec fn replicas_sorted(keys: Seq<Replica>) -> bool {
    forall|i: int, j: int| 0 <= i < j < keys.len() ==> replica_lt(keys[i], keys[j])
}

/// The result of the binary search for `x` among `keys[lo..hi]`:
/// `Ok(i)` where it meets `x`, `Err(i)` where the search ends.
pub open spec fn replica_search(keys: Seq<Replica>, x: Replica, lo: int, hi: int) -> Result<int, int>
    decreases hi - lo,
{
    if lo >= hi {
        Err(lo)
    } else {
        let mid = lo + (hi - lo) / 2;
        if replica_lt(keys[mid], x) {
            replica_search(keys, x, mid + 1, hi)
        } else if keys[mid] == x {
            Ok(mid)
        } else {
            replica_search(keys, x, lo, mid)
        }
    }
}

/// The search ends inside the range it was given.
pub proof fn lemma_replica_search_bounds(keys: Seq<Replica>, x: Replica, lo: int, hi: int)
    requires
        0 <= lo <= hi <= keys.len(),
    ensures
        match replica_search(keys, x, lo, hi) {
            Ok(i) => lo <= i < hi && keys[i] == x,
            Err(i) => lo <= i <= hi,
        },
    decreases hi - lo,
{
    if lo < hi {
        let mid = lo + (hi - lo) / 2;
        if replica_lt(keys[mid], x) {
            lemma_replica_search_bounds(keys, x, mid + 1, hi);
        } else if keys[mid] != x {
            lemma_replica_search_bounds(keys, x, lo, mid);
        }
    }
}

/// In sorted replicas the search finds `x` exactly when it is there, and
/// otherwise the place where it belongs.
pub proof fn lemma_replica_search_sorted(keys: Seq<Replica>, x: Replica, lo: int, hi: int)
    requires
        replicas_sorted(keys),
        0 <= lo <= hi <= keys.len(),
        forall|k: int| 0 <= k < lo ==> replica_lt(keys[k], x),
        forall|k: int| hi <= k < keys.len() ==> replica_lt(x, keys[k]),
    ensures
        match replica_search(keys, x, lo, hi) {
            Ok(i) => 0 <= i < keys.len() && keys[i] == x,
            Err(i) => 0 <= i <= keys.len() && !keys.contains(x)
                && (forall|k: int| 0 <= k < i ==> replica_lt(keys[k], x))
                && (forall|k: int| i <= k < keys.len() ==> replica_lt(x, keys[k])),
        },
    decreases hi - lo,
{
    if lo < hi {
        let mid = lo + (hi - lo) / 2;
        if replica_lt(keys[mid], x) {
            assert forall|k: int| 0 <= k < mid + 1 implies replica_lt(keys[k], x) by {
                if k < mid {
                    assert(replica_lt(keys[k], keys[mid]));
                }
            }
            lemma_replica_search_sorted(keys, x, mid + 1, hi);
        } else if keys[mid] != x {
            assert forall|k: int| mid <= k < keys.len() implies replica_lt(x, keys[k]) by {
                if mid < k && k < hi {
                    assert(replica_lt(keys[mid], keys[k]));
                }
            }
            lemma_replica_search_sorted(keys, x, lo, mid);
        }
    } else {
        if keys.contains(x) {
            let k = choose|k: int| 0 <= k < keys.len() && keys[k] == x;
            assert(replica_lt(keys[k], x) || replica_lt(x, keys[k]));
        }
    }
}

/// A value that carries the replica that made it.
pub trait Stamped {
    /// The replica carried.
    spec fn stamp(&self) -> Replica;

    /// Returns the replica carried.
    fn replica(&self) -> (r: &Replica)
        ensures
            *r == self.stamp(),
    ;
}

impl Stamped for Replica {
    open spec fn stamp(&self) -> Replica {
        *self
    }

    fn replica(&self) -> (r: &Replica) {
        self
    }
}

/// The replicas carried by a run of stamped values.
pub open spec fn stamps<E: Stamped>(s: Seq<E>) -> Seq<Replica> {
    s.map_values(|e: E| e.stamp())
}

/// Finds `x` by binary search among the replicas that `v` carries: `Ok`
/// with its index, or `Err` with the index where the search ends.
pub fn search_stamped<E: Stamped>(v: &Vec<E>, x: &Replica) -> (r: Result<usize, usize>)
    ensures
        match (r, replica_search(stamps(v@), *x, 0, v@.len() as int)) {
            (Ok(i), Ok(j)) => i as int == j,
            (Err(i), Err(j)) => i as int == j,
            _ => false,
        },
        match r {
            Ok(i) => i < v@.len(),
            Err(i) => i <= v@.len(),
        },
{
    let ghost keys = stamps(v@);
    proof {
        lemma_replica_search_bounds(keys, *x, 0, keys.len() as int);
    }
    let mut lo: usize = 0;
    let mut hi: usize = v.len();
    while lo < hi
        invariant
            keys == stamps(v@),
            keys.len() == v@.len(),
            lo <= hi <= keys.len(),
            replica_search(keys, *x, 0, keys.len() as int) == replica_search(keys, *x, lo as int, hi as int),
        decreases hi - lo,
    {
        let mid = lo + (hi - lo) / 2;
        let r = v[mid].replica();
        assert(keys[mid as int] == *r);
        if r.site < x.site || (r.site == x.site && r.counter < x.counter) {
            lo = mid + 1;
        } else if r.site == x.site && r.counter == x.counter {
            return Ok(mid);
        } else {
            hi = mid;
        }
    }
    Err(lo)
}

/// `s` without the values that the binary search by replica for each of
/// `removed`, in turn, meets.
pub open spec fn without_stamped<E: Stamped>(s: Seq<E>, removed: Seq<E>) -> Seq<E>
    decreases removed.len(),
{
    if removed.len() == 0 {
        s
    } else {
        let before = without_stamped(s, removed.drop_last());
        match replica_search(stamps(before), removed.last().stamp(), 0, before.len() as int) {
            Ok(i) => before.remove(i),
            Err(_) => before,
        }
    }
}

/// Removes from `v`, one by one, the values that the binary search by
/// replica for each of `removed` meets.
pub fn remove_stamped<E: Stamped>(v: &mut Vec<E>, removed: &Vec<E>)
    ensures
        final(v)@ == without_stamped(old(v)@, removed@),
{
    let ghost start = v@;
    let mut i: usize = 0;
    while i < removed.len()
        invariant
            i <= removed.len(),
            v@ == without_stamped(start, removed@.subrange(0, i as int)),
        decreases removed.len() - i,
    {
        if let Ok(index) = search_stamped(v, removed[i].replica()) {
            v.remove(index);
        }
        assert(removed@.subrange(0, i + 1).drop_last() =~= removed@.subrange(0, i as int));
        i = i + 1;
    }
    assert(removed@.subrange(0, removed.len() as int) =~= removed@);
}

/// The values carry strictly increasing replicas.
pub open spec fn stamped_sorted<E: Stamped>(s: Seq<E>) -> bool {
    replicas_sorted(stamps(s))
}

/// Some value of `s` carries `r`.
pub open spec fn has_stamp<E: Stamped>(s: Seq<E>, r: Replica) -> bool {
    exists|i: int| 0 <= i < s.len() && #[trigger] s[i].stamp() == r
}

/// What an update does to values kept in replica order: the values that
/// the binary search for each of `removed` meets go, and `e` is put where
/// the search for its replica ends, unless a value with that replica is
/// there.
pub open spec fn stamped_applied<E: Stamped>(s: Seq<E>, removed: Seq<E>, e: E) -> Seq<E> {
    let left = without_stamped(s, removed);
    match replica_search(stamps(left), e.stamp(), 0, left.len() as int) {
        Ok(_) => left,
        Err(i) => left.insert(i, e),
    }
}

/// Two sequences in strict replica order that hold the same values are
/// equal.
pub proof fn lemma_stamped_sorted_unique<E: Stamped>(a: Seq<E>, b: Seq<E>)
    requires
        stamped_sorted(a),
        stamped_sorted(b),
        forall|e: E| a.contains(e) <==> b.contains(e),
    ensures
        a == b,
    decreases a.len(),
{
    if a.len() == 0 {
        if b.len() > 0 {
            assert(b.contains(b[0]));
        }
        assert(a =~= b);
    } else {
        assert(a.contains(a[0]));
        let j = choose|j: int| 0 <= j < b.len() && b[j] == a[0];
        assert(b.contains(b[0]));
        let i = choose|i: int| 0 <= i < a.len() && a[i] == b[0];
        assert(stamps(a)[0] == a[0].stamp());
        assert(stamps(a)[i] == a[i].stamp());
        assert(stamps(b)[0] == b[0].stamp());
        assert(stamps(b)[j] == b[j].stamp());
        if j > 0 {
            assert(replica_lt(stamps(b)[0], stamps(b)[j]));
            if i > 0 {
                assert(replica_lt(stamps(a)[0], stamps(a)[i]));
            }
            assert(false);
        }
        let ra = a.drop_first();
        let rb = b.drop_first();
        assert forall|x: int, y: int| 0 <= x < y < ra.len() implies replica_lt(stamps(ra)[x], stamps(ra)[y]) by {
            assert(stamps(ra)[x] == stamps(a)[x + 1]);
            assert(stamps(ra)[y] == stamps(a)[y + 1]);
        }
        assert forall|x: int, y: int| 0 <= x < y < rb.len() implies replica_lt(stamps(rb)[x], stamps(rb)[y]) by {
            assert(stamps(rb)[x] == stamps(b)[x + 1]);
            assert(stamps(rb)[y] == stamps(b)[y + 1]);
        }
        assert forall|e: E| ra.contains(e) <==> rb.contains(e) by {
            if ra.contains(e) {
                let k = choose|k: int| 0 <= k < ra.len() && ra[k] == e;
                assert(a[k + 1] == e && a.contains(e));
                let m = choose|m: int| 0 <= m < b.len() && b[m] == e;
                if m == 0 {
                    assert(stamps(a)[k + 1] == stamps(a)[0]);
                    assert(replica_lt(stamps(a)[0], stamps(a)[k + 1]));
                }
                assert(rb[m - 1] == e);
            }
            if rb.contains(e) {
                let k = choose|k: int| 0 <= k < rb.len() && rb[k] == e;
                assert(b[k + 1] == e && b.contains(e));
                let m = choose|m: int| 0 <= m < a.len() && a[m] == e;
                if m == 0 {
                    assert(stamps(b)[k + 1] == stamps(b)[0]);
                    assert(replica_lt(stamps(b)[0], stamps(b)[k + 1]));
                }
                assert(ra[m - 1] == e);
            }
        }
        lemma_stamped_sorted_unique(ra, rb);
        assert(a =~= seq![a[0]] + ra);
        assert(b =~= seq![b[0]] + rb);
    }
}

/// In strict replica order, the binary search for a replica finds the
/// value that carries it, and otherwise ends where a value with it
/// belongs.
pub proof fn lemma_stamped_search<E: Stamped>(s: Seq<E>, e: E)
    requires
        stamped_sorted(s),
    ensures
        match replica_search(stamps(s), e.stamp(), 0, s.len() as int) {
            Ok(i) => 0 <= i < s.len() && s[i].stamp() == e.stamp() && has_stamp(s, e.stamp()),
            Err(i) => {
                &&& 0 <= i <= s.len()
                &&& !has_stamp(s, e.stamp())
                &&& stamped_sorted(s.insert(i, e))
                &&& forall|x: E| s.insert(i, e).contains(x) <==> (s.contains(x) || x == e)
            },
        },
{
    let keys = stamps(s);
    lemma_replica_search_sorted(keys, e.stamp(), 0, s.len() as int);
    match replica_search(keys, e.stamp(), 0, s.len() as int) {
        Ok(i) => {
            assert(keys[i] == s[i].stamp());
        },
        Err(i) => {
            if has_stamp(s, e.stamp()) {
                let k = choose|k: int| 0 <= k < s.len() && #[trigger] s[k].stamp() == e.stamp();
                assert(keys[k] == e.stamp());
                assert(keys.contains(e.stamp()));
            }
            let t = s.insert(i, e);
            assert(stamps(t) =~= keys.insert(i, e.stamp()));
            assert forall|x: int, y: int| 0 <= x < y < t.len() implies replica_lt(stamps(t)[x], stamps(t)[y]) by {
                if y < i {
                } else if x < i && y == i {
                } else if x < i {
                    assert(stamps(t)[y] == keys[y - 1]);
                } else if x == i {
                    assert(stamps(t)[y] == keys[y - 1]);
                } else {
                    assert(stamps(t)[x] == keys[x - 1]);
                    assert(stamps(t)[y] == keys[y - 1]);
                }
            }
            assert forall|x: E| t.contains(x) <==> (s.contains(x) || x == e) by {
                if t.contains(x) {
                    let k = choose|k: int| 0 <= k < t.len() && t[k] == x;
                    if k < i {
                        assert(s[k] == x);
                    } else if k > i {
                        assert(s[k - 1] == x);
                    }
                }
                if s.contains(x) {
                    let k = choose|k: int| 0 <= k < s.len() && s[k] == x;
                    if k < i {
                        assert(t[k] == x);
                    } else {
                        assert(t[k + 1] == x);
                    }
                }
                if x == e {
                    assert(t[i] == x);
                }
            }
        },
    }
}

/// In strict replica order, removal by binary search keeps the order and
/// takes out exactly the values whose replica is among the removed.
pub proof fn lemma_without_stamped<E: Stamped>(s: Seq<E>, removed: Seq<E>)
    requires
        stamped_sorted(s),
    ensures
        stamped_sorted(without_stamped(s, removed)),
        forall|x: E| #[trigger] without_stamped(s, removed).contains(x) <==> (s.contains(x) && !stamps(removed).contains(x.stamp())),
    decreases removed.len(),
{
    if removed.len() == 0 {
        assert forall|x: E| #[trigger] without_stamped(s, removed).contains(x) <==> (s.contains(x) && !stamps(removed).contains(x.stamp())) by {
            assert(stamps(removed).len() == 0);
        }
    } else {
        let rest = removed.drop_last();
        lemma_without_stamped(s, rest);
        let before = without_stamped(s, rest);
        let r = removed.last();
        assert forall|y: Replica| stamps(removed).contains(y) <==> (stamps(rest).contains(y) || y == r.stamp()) by {
            if stamps(removed).contains(y) {
                let k = choose|k: int| 0 <= k < stamps(removed).len() && stamps(removed)[k] == y;
                if k < rest.len() {
                    assert(stamps(rest)[k] == y);
                }
            }
            if stamps(rest).contains(y) {
                let k = choose|k: int| 0 <= k < stamps(rest).len() && stamps(rest)[k] == y;
                assert(stamps(removed)[k] == y);
            }
            if y == r.stamp() {
                assert(stamps(removed)[removed.len() - 1] == y);
            }
        }
        lemma_stamped_search(before, r);
        match replica_search(stamps(before), r.stamp(), 0, before.len() as int) {
            Ok(i) => {
                let t = before.remove(i);
                assert forall|x: int, y: int| 0 <= x < y < t.len() implies replica_lt(stamps(t)[x], stamps(t)[y]) by {
                    let xx = if x < i { x } else { x + 1 };
                    let yy = if y < i { y } else { y + 1 };
                    assert(stamps(t)[x] == stamps(before)[xx]);
                    assert(stamps(t)[y] == stamps(before)[yy]);
                }
                assert forall|x: E| t.contains(x) <==> (before.contains(x) && x.stamp() != r.stamp()) by {
                    if t.contains(x) {
                        let k = choose|k: int| 0 <= k < t.len() && t[k] == x;
                        let kk = if k < i { k } else { k + 1 };
                        assert(before[kk] == x);
                        assert(stamps(before)[kk] == x.stamp());
                        assert(stamps(before)[i] == r.stamp());
                        if kk < i {
                            assert(replica_lt(stamps(before)[kk], stamps(before)[i]));
                        } else {
                            assert(replica_lt(stamps(before)[i], stamps(before)[kk]));
                        }
                    }
                    if before.contains(x) && x.stamp() != r.stamp() {
                        let k = choose|k: int| 0 <= k < before.len() && before[k] == x;
                        if k < i {
                            assert(t[k] == x);
                        } else if k > i {
                            assert(t[k - 1] == x);
                        }
                    }
                }
            },
            Err(i) => {
                assert forall|x: E| before.contains(x) implies x.stamp() != r.stamp() by {
                    let k = choose|k: int| 0 <= k < before.len() && before[k] == x;
                    assert(before[k].stamp() == x.stamp());
                }
            },
        }
        assert forall|x: E| #[trigger] without_stamped(s, removed).contains(x) <==> (s.contains(x) && !stamps(removed).contains(x.stamp())) by {
            assert(before.contains(x) <==> (s.contains(x) && !stamps(rest).contains(x.stamp())));
        }
    }
}

/// Applying the same update twice leaves values kept in strict replica
/// order as applying it once.
pub proof fn lemma_stamped_applied_idempotent<E: Stamped>(s: Seq<E>, removed: Seq<E>, e: E)
    requires
        stamped_sorted(s),
    ensures
        stamped_sorted(stamped_applied(s, removed, e)),
        stamped_applied(stamped_applied(s, removed, e), removed, e) == stamped_applied(s, removed, e),
{
    let w = without_stamped(s, removed);
    lemma_without_stamped(s, removed);
    lemma_stamped_search(w, e);
    let s1 = stamped_applied(s, removed, e);
    let w2 = without_stamped(s1, removed);
    lemma_without_stamped(s1, removed);
    if stamps(removed).contains(e.stamp()) {
        // `e` cannot be in `w`, so it was added, and the second removal
        // takes it out again.
        if has_stamp(w, e.stamp()) {
            let k = choose|k: int| 0 <= k < w.len() && #[trigger] w[k].stamp() == e.stamp();
            assert(w.contains(w[k]));
        }
        assert forall|x: E| w2.contains(x) <==> w.contains(x) by {
            assert(w2.contains(x) <==> (s1.contains(x) && !stamps(removed).contains(x.stamp())));
        }
        lemma_stamped_sorted_unique(w2, w);
    } else {
        assert forall|x: E| w2.contains(x) <==> s1.contains(x) by {
            if s1.contains(x) {
                if x != e {
                    assert(w.contains(x));
                }
            }
        }
        lemma_stamped_sorted_unique(w2, s1);
        lemma_stamped_search(s1, e);
        match replica_search(stamps(w), e.stamp(), 0, w.len() as int) {
            Ok(i) => {},
            Err(i) => {
                assert(s1[i] == e);
                assert(has_stamp(s1, e.stamp()));
            },
        }
    }
}

/// Two concurrent updates (neither removes the value the other adds, and
/// they add under different replicas) give the same values whichever
/// comes first, where each replica names one value.
pub proof fn lemma_stamped_applied_commute<E: Stamped>(s: Seq<E>, r1: Seq<E>, e1: E, r2: Seq<E>, e2: E)
    requires
        stamped_sorted(s),
        e1.stamp() != e2.stamp(),
        !stamps(r2).contains(e1.stamp()),
        !stamps(r1).contains(e2.stamp()),
        forall|x: E| s.contains(x) && x.stamp() == e1.stamp() ==> x == e1,
        forall|x: E| s.contains(x) && x.stamp() == e2.stamp() ==> x == e2,
    ensures
        stamped_applied(stamped_applied(s, r1, e1), r2, e2) == stamped_applied(stamped_applied(s, r2, e2), r1, e1),
{
    let a = stamped_applied(stamped_applied(s, r1, e1), r2, e2);
    let b = stamped_applied(stamped_applied(s, r2, e2), r1, e1);
    lemma_stamped_applied_content(s, r1, e1);
    lemma_stamped_applied_content(s, r2, e2);
    lemma_stamped_applied_content(stamped_applied(s, r1, e1), r2, e2);
    lemma_stamped_applied_content(stamped_applied(s, r2, e2), r1, e1);
    let a1 = stamped_applied(s, r1, e1);
    let b1 = stamped_applied(s, r2, e2);
    assert forall|x: E| a1.contains(x) && x.stamp() == e2.stamp() implies x == e2 by {
        if x != e1 {
            assert(s.contains(x));
        }
    }
    assert forall|x: E| b1.contains(x) && x.stamp() == e1.stamp() implies x == e1 by {
        if x != e2 {
            assert(s.contains(x));
        }
    }
    assert forall|x: E| a.contains(x) <==> b.contains(x) by {
        if a.contains(x) {
            if x != e1 && x != e2 {
                assert(a1.contains(x));
                assert(s.contains(x));
            }
        }
        if b.contains(x) {
            if x != e1 && x != e2 {
                assert(b1.contains(x));
                assert(s.contains(x));
            }
        }
    }
    lemma_stamped_sorted_unique(a, b);
}

/// What an update leaves, for values kept in strict replica order: each
/// value is the added one or an old one not removed; each old value not
/// removed stays; some value carries the added replica; and where no old
/// value but the added one carries that replica, the added value is
/// there.
pub proof fn lemma_stamped_applied_content<E: Stamped>(s: Seq<E>, removed: Seq<E>, e: E)
    requires
        stamped_sorted(s),
    ensures
        stamped_sorted(stamped_applied(s, removed, e)),
        forall|x: E| #[trigger] stamped_applied(s, removed, e).contains(x) ==> x == e || (s.contains(x) && !stamps(removed).contains(x.stamp())),
        forall|x: E| s.contains(x) && !stamps(removed).contains(x.stamp()) ==> #[trigger] stamped_applied(s, removed, e).contains(x),
        has_stamp(stamped_applied(s, removed, e), e.stamp()),
        (forall|x: E| s.contains(x) && x.stamp() == e.stamp() ==> x == e) ==> stamped_applied(s, removed, e).contains(e),
{
    let w = without_stamped(s, removed);
    lemma_without_stamped(s, removed);
    lemma_stamped_search(w, e);
    let t = stamped_applied(s, removed, e);
    assert forall|x: E| w.contains(x) ==> #[trigger] t.contains(x) by {
        assert(w.contains(x) <==> (s.contains(x) && !stamps(removed).contains(x.stamp())));
    }
    assert forall|x: E| #[trigger] t.contains(x) ==> x == e || (s.contains(x) && !stamps(removed).contains(x.stamp())) by {
        assert(w.contains(x) <==> (s.contains(x) && !stamps(removed).contains(x.stamp())));
    }
    assert forall|x: E| s.contains(x) && !stamps(removed).contains(x.stamp()) implies #[trigger] t.contains(x) by {
        assert(w.contains(x) <==> (s.contains(x) && !stamps(removed).contains(x.stamp())));
    }
    match replica_search(stamps(w), e.stamp(), 0, w.len() as int) {
        Ok(i) => {
            assert(w.contains(w[i]));
            assert(s.contains(w[i]));
            assert(t[i].stamp() == e.stamp());
        },
        Err(i) => {
            assert(t[i] == e);
            assert(t[i].stamp() == e.stamp());
        },
    }
}

/// Removals by replica from values in strict replica order give the same
/// values in either order.
pub proof fn lemma_without_stamped_commute<E: Stamped>(s: Seq<E>, r1: Seq<E>, r2: Seq<E>)
    requires
        stamped_sorted(s),
    ensures
        without_stamped(without_stamped(s, r1), r2) == without_stamped(without_stamped(s, r2), r1),
{
    lemma_without_stamped(s, r1);
    lemma_without_stamped(s, r2);
    let a1 = without_stamped(s, r1);
    let b1 = without_stamped(s, r2);
    lemma_without_stamped(a1, r2);
    lemma_without_stamped(b1, r1);
    let a = without_stamped(a1, r2);
    let b = without_stamped(b1, r1);
    assert forall|x: E| a.contains(x) <==> b.contains(x) by {
        assert(a.contains(x) <==> (a1.contains(x) && !stamps(r2).contains(x.stamp())));
        assert(b.contains(x) <==> (b1.contains(x) && !stamps(r1).contains(x.stamp())));
        assert(a1.contains(x) <==> (s.contains(x) && !stamps(r1).contains(x.stamp())));
        assert(b1.contains(x) <==> (s.contains(x) && !stamps(r2).contains(x.stamp())));
    }
    lemma_stamped_sorted_unique(a, b);
}

/// An update and a concurrent removal (which does not remove the value
/// the update adds) give the same values in either order, where only
/// the update's value carries its replica.
pub proof fn lemma_stamped_applied_without_commute<E: Stamped>(s: Seq<E>, r1: Seq<E>, e1: E, r2: Seq<E>)
    requires
        stamped_sorted(s),
        !stamps(r2).contains(e1.stamp()),
        forall|x: E| s.contains(x) && x.stamp() == e1.stamp() ==> x == e1,
    ensures
        without_stamped(stamped_applied(s, r1, e1), r2) == stamped_applied(without_stamped(s, r2), r1, e1),
{
    let a1 = stamped_applied(s, r1, e1);
    let b1 = without_stamped(s, r2);
    lemma_stamped_applied_content(s, r1, e1);
    lemma_without_stamped(s, r2);
    lemma_without_stamped(a1, r2);
    lemma_stamped_applied_content(b1, r1, e1);
    let a = without_stamped(a1, r2);
    let b = stamped_applied(b1, r1, e1);
    assert forall|x: E| b1.contains(x) && x.stamp() == e1.stamp() implies x == e1 by {
        assert(b1.contains(x) <==> (s.contains(x) && !stamps(r2).contains(x.stamp())));
    }
    assert forall|x: E| a.contains(x) <==> b.contains(x) by {
        assert(a.contains(x) <==> (a1.contains(x) && !stamps(r2).contains(x.stamp())));
        assert(b1.contains(x) <==> (s.contains(x) && !stamps(r2).contains(x.stamp())));
        if b.contains(x) && x != e1 {
            assert(b1.contains(x));
        }
        if a.contains(x) && x != e1 {
            assert(a1.contains(x));
        }
    }
    lemma_stamped_sorted_unique(a, b);
}

/// Nothing is removed from nothing.
pub proof fn lemma_without_stamped_empty<E: Stamped>(removed: Seq<E>)
    ensures
        without_stamped(Seq::<E>::empty(), removed) == Seq::<E>::empty(),
    decreases removed.len(),
{
    if removed.len() > 0 {
        lemma_without_stamped_empty(removed.drop_last());
    }
}

} // verus!
