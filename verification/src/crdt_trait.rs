//! The operations that every CRDT, its value and its remote ops share.

use crate::error::Error;
use vstd::prelude::*;

verus! {

/// What a CRDT offers: its value, its site, the ops waiting for a site,
/// and its local value.
pub trait Crdt: Sized {
    type LocalValue;
    type Value: CrdtValue<RemoteOp = Self::RemoteOp>;
    type RemoteOp: CrdtRemoteOp;
    type LocalOp;

    /// The CRDT's site, as `site` returns it.
    spec fn site_view(&self) -> u32;

    /// The CRDT's value, as `value` hands it out.
    spec fn value_view(&self) -> Self::Value;

    /// The ops waiting for a site, as `awaiting_site` hands them out.
    spec fn awaiting_view(&self) -> Seq<Self::RemoteOp>;

    /// The CRDT's value, to update: what is written through it becomes
    /// the CRDT's value, and nothing else changes.
    fn value(&mut self) -> (r: &mut Self::Value)
        ensures
            *r == old(self).value_view(),
            final(self).value_view() == *final(r),
            final(self).site_view() == old(self).site_view(),
            final(self).awaiting_view() == old(self).awaiting_view(),
    ;

    /// The CRDT's site.
    fn site(&self) -> (s: u32)
        ensures
            s == self.site_view(),
    ;

    /// Gives the CRDT the site, and changes nothing else.
    fn set_site(&mut self, site: u32)
        ensures
            final(self).site_view() == site,
            final(self).value_view() == old(self).value_view(),
            final(self).awaiting_view() == old(self).awaiting_view(),
    ;

    /// The ops to send once the CRDT has a site: what is written through
    /// it becomes the waiting ops, and nothing else changes.
    fn awaiting_site(&mut self) -> (r: &mut Vec<Self::RemoteOp>)
        ensures
            r@ == old(self).awaiting_view(),
            final(self).awaiting_view() == final(r)@,
            final(self).site_view() == old(self).site_view(),
            final(self).value_view() == old(self).value_view(),
    ;

    /// Consumes the CRDT and returns its local value.
    fn into_local(self) -> Self::LocalValue
        requires
            self.value_view().ready(),
    ;

    /// Called after each local update: with a site, returns the op and
    /// changes nothing; without one, keeps it for later (after the ops
    /// already waiting) and returns `AwaitingSite`.
    fn return_or_cache_op(&mut self, op: Self::RemoteOp) -> (r: Result<Self::RemoteOp, Error>)
        ensures
            old(self).site_view() != 0 ==> r == Ok::<Self::RemoteOp, Error>(op) && *final(self) == *old(self),
            old(self).site_view() == 0 ==> {
                &&& r == Err::<Self::RemoteOp, Error>(Error::AwaitingSite)
                &&& final(self).awaiting_view() == old(self).awaiting_view().push(op)
                &&& final(self).value_view() == old(self).value_view()
                &&& final(self).site_view() == old(self).site_view()
            },
    {
        if self.site() != 0 {
            return Ok(op);
        }
        self.awaiting_site().push(op);
        Err(Error::AwaitingSite)
    }

    /// Gives the CRDT, its value and its waiting ops the site, and returns
    /// the ops, leaving none waiting. A CRDT that has a site refuses with
    /// `AlreadyHasSite` and changes nothing.
    fn update_site(&mut self, site: u32) -> (r: Result<Vec<Self::RemoteOp>, Error>)
        requires
            old(self).value_view().ready(),
        ensures
            final(self).value_view().ready(),
            old(self).site_view() != 0 ==> r == Err::<Vec<Self::RemoteOp>, Error>(Error::AlreadyHasSite) && *final(self) == *old(self),
            old(self).site_view() == 0 ==> (r matches Ok(ops) && {
                &&& ops@.len() == old(self).awaiting_view().len()
                &&& forall|i: int| 0 <= i < ops@.len() ==> (#[trigger] old(self).awaiting_view()[i]).site_added(site, &ops@[i])
                &&& final(self).awaiting_view() == Seq::<Self::RemoteOp>::empty()
                &&& final(self).value_view()@ == value_after_sites::<Self::Value>(old(self).value_view()@, old(self).awaiting_view(), site)
                &&& final(self).site_view() == site
            }),
    {
        if self.site() != 0 {
            return Err(Error::AlreadyHasSite);
        }
        let ghost aw0 = self.awaiting_view();
        let ghost v0 = self.value_view();
        let mut ops: Vec<Self::RemoteOp> = Vec::new();
        std::mem::swap(&mut ops, self.awaiting_site());
        assert(ops@ == aw0);
        let mut i: usize = 0;
        while i < ops.len()
            invariant
                i <= ops.len(),
                ops@.len() == aw0.len(),
                forall|k: int| 0 <= k < i ==> (#[trigger] aw0[k]).site_added(site, &ops@[k]),
                forall|k: int| i <= k < ops@.len() ==> ops@[k] == aw0[k],
                self.value_view().ready(),
                self.value_view()@ == value_after_sites::<Self::Value>(v0@, aw0.take(i as int), site),
                self.awaiting_view() == Seq::<Self::RemoteOp>::empty(),
                self.site_view() == old(self).site_view(),
            decreases ops.len() - i,
        {
            self.value().add_site(&ops[i], site);
            ops[i].add_site(site);
            proof {
                assert(aw0.take(i + 1).drop_last() == aw0.take(i as int));
            }
            i = i + 1;
        }
        assert(aw0.take(aw0.len() as int) == aw0);
        self.set_site(site);
        Ok(ops)
    }
}

/// The view of a value after taking the site from each of `ops` in turn.
pub open spec fn value_after_sites<V: CrdtValue>(v: <V as View>::V, ops: Seq<<V as CrdtValue>::RemoteOp>, site: u32) -> <V as View>::V
    decreases ops.len(),
{
    if ops.len() == 0 {
        v
    } else {
        V::site_taken(value_after_sites::<V>(v, ops.drop_last(), site), ops.last(), site)
    }
}

/// What a CRDT's value offers: taking a site from one of its remote ops.
pub trait CrdtValue: Sized + View {
    type RemoteOp;

    /// The value is in a state its operations accept.
    spec fn ready(&self) -> bool;

    /// The view after the value takes `site` from `op`.
    spec fn site_taken(v: <Self as View>::V, op: Self::RemoteOp, site: u32) -> <Self as View>::V;

    fn add_site(&mut self, op: &Self::RemoteOp, site: u32)
        requires
            old(self).ready(),
        ensures
            final(self).ready(),
            final(self)@ == Self::site_taken(old(self)@, *op, site),
    ;
}

/// What a CRDT's remote op offers: taking a site.
pub trait CrdtRemoteOp: Sized {
    /// `after` is this op once it has taken `site`.
    spec fn site_added(&self, site: u32, after: &Self) -> bool;

    fn add_site(&mut self, site: u32)
        ensures
            old(self).site_added(site, &*final(self)),
    ;
}

/// Converts a value into a CRDT with the given site.
pub trait IntoCrdt<C: Crdt> {
    fn into_crdt(self, site: &u32) -> C;
}

} // verus!
