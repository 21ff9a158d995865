//! Paths: a simpler way to place sequence elements, as a list of
//! (index, site) levels, with the LSEQ choice of a new index between two
//! others.

use crate::sequence::uid::random_in_range;
use vstd::arithmetic::power2::pow2;
use vstd::prelude::*;

verus! {

/// The number of bits of the first level: its indexes run below
/// `2^BASE_LEVEL`.
pub const BASE_LEVEL: u32 = 3;

/// The largest step a new index takes from its neighbour.
pub const BOUNDARY: u32 = 10;

/// One level of a path: an index and the site that chose it.
#[derive(Debug, Clone, Copy, PartialEq, Eq, Structural)]
pub struct PathElt {
    pub index: u32,
    pub site: u32,
}

impl PathElt {
    /// A level with `index` chosen by `site`.
    pub fn new(index: u32, site: u32) -> (p: PathElt)
        ensures
            p == (PathElt { index: index, site: site }),
    {
        PathElt { index: index, site: site }
    }
}

/// A place in a sequence: its levels, from the first.
pub type Path = Vec<PathElt>;

/// `2^BASE_LEVEL`, the first level's width.
fn base_width() -> (w: u32)
    ensures
        w as nat == pow2(BASE_LEVEL as nat),
{
    let mut w: u32 = 1;
    let mut i: u32 = 0;
    proof {
        vstd::arithmetic::power2::lemma2_to64();
    }
    while i < BASE_LEVEL
        invariant
            i <= BASE_LEVEL,
            w as nat == pow2(i as nat),
        decreases BASE_LEVEL - i,
    {
        proof {
            vstd::arithmetic::power2::lemma2_to64();
        }
        w = w * 2;
        i = i + 1;
    }
    w
}

/// The minimum path for any sequence.
pub fn min() -> (p: Path)
    ensures
        p@ == seq![PathElt { index: 0, site: 0 }],
{
    let mut p: Vec<PathElt> = Vec::new();
    p.push(PathElt::new(0, 0));
    p
}

/// The maximum path for any sequence: the first level's width.
pub fn max() -> (p: Path)
    ensures
        p@ == seq![PathElt { index: 8, site: 0 }],
{
    let w = base_width();
    proof {
        vstd::arithmetic::power2::lemma2_to64();
    }
    let mut p: Vec<PathElt> = Vec::new();
    p.push(PathElt::new(w, 0));
    p
}

/// boundary+ on odd levels, boundary- on even ones.
pub open spec fn plus_level(level: u32) -> bool {
    level % 2 == 1
}

/// The interval `[lo, hi)` from which `generate_index` draws: boundary+
/// takes `[index1 + 1, min(index1 + BOUNDARY, index2))`, boundary-
/// `[max(index1 + 1, index2 - BOUNDARY), index2)`.
pub open spec fn index_interval(index1: u32, index2: u32, level: u32) -> (int, int) {
    if plus_level(level) {
        (index1 + 1, if index1 + BOUNDARY < index2 { index1 + BOUNDARY } else { index2 as int })
    } else if index2 <= BOUNDARY {
        (index1 + 1, index2 as int)
    } else {
        (if index1 + 1 > index2 - BOUNDARY { index1 + 1 } else { index2 - BOUNDARY }, index2 as int)
    }
}

/// Generates an index between `index1` and `index2`, at random in
/// `index_interval(index1, index2, level)`.
pub fn generate_index(index1: u32, index2: u32, level: u32) -> (r: u32)
    requires
        index_interval(index1, index2, level).0 < index_interval(index1, index2, level).1,
        plus_level(level) ==> index1 + BOUNDARY <= u32::MAX,
    ensures
        index_interval(index1, index2, level).0 <= r < index_interval(index1, index2, level).1,
{
    let (lo, hi) = if use_plus_strategy(level) {
        let lo = index1 + 1;
        let hi = if index1 + BOUNDARY < index2 { index1 + BOUNDARY } else { index2 };
        (lo, hi)
    } else if index2 <= BOUNDARY {
        (index1 + 1, index2)
    } else {
        let lo = if index1 + 1 > index2 - BOUNDARY { index1 + 1 } else { index2 - BOUNDARY };
        (lo, index2)
    };
    let r = random_in_range(lo as u64, hi as u64);
    r as u32
}

/// Whether `level` uses boundary+.
fn use_plus_strategy(level: u32) -> (b: bool)
    ensures
        b == plus_level(level),
{
    level % 2 == 1
}

} // verus!
