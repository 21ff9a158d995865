//! A `Dot` names one operation by the site id that made it and that
//! site's counter.

use vstd::prelude::*;

verus! {

/// A site id and a counter.
#[derive(Clone, Copy, Debug, PartialEq, Eq, Structural, PartialOrd, Ord, Hash)]
pub struct Dot {
    pub site_id: u32,
    pub counter: u32,
}

impl Dot {
    /// Constructs a dot from a site id and a counter.
    pub fn new(site_id: u32, counter: u32) -> (d: Dot)
        ensures
            d.site_id == site_id,
            d.counter == counter,
    {
        Dot { site_id: site_id, counter: counter }
    }
}

} // verus!
