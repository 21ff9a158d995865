//! A sequence Uid is a unique identifier that keeps the elements of a
//! sequence in one total order at every site.
//!
//! A position is a list of levels: level `i` holds a number below
//! `2^(20 + i)`. Positions are ordered level by level, a position that
//! is a proper prefix of another coming first; Uids with the same
//! position are ordered by site id, then by counter.
//!
//! New Uids are made with a variant of the LSEQ algorithm that always
//! uses the boundary+ strategy: it looks for the first level at which
//! the two neighbours leave room, and picks a number just above the
//! left neighbour's there.

use crate::dot::Dot;
use vstd::arithmetic::power2::{lemma2_to64, lemma2_to64_rest, lemma_pow2_strictly_increases, lemma_pow2_unfold, pow2};
use vstd::prelude::*;
use rand::Rng;

verus! {

/// Width in bits of the first level of a position.
pub const BASE_LEVEL: usize = 20;

/// Width in bits of the last level the algorithm may reach.
pub const MAX_LEVEL: usize = 64;

/// How far above the left neighbour a new level value may be chosen.
pub const BOUNDARY: u64 = 40;

/// The number of levels a position can hold: levels `20` to `63`
/// (building level 64 would shift a machine word by its own width).
pub open spec fn max_levels() -> nat {
    44
}

/// Values at level index `i` are below this bound.
pub open spec fn level_bound(i: nat) -> nat {
    pow2(BASE_LEVEL as nat + i)
}

/// Every level of the position is within its width.
pub open spec fn valid_position(p: Seq<u64>) -> bool {
    forall|i: int| 0 <= i < p.len() ==> (#[trigger] p[i]) < level_bound(i as nat)
}

/// `a` and `b` agree on their first `n` levels.
pub open spec fn agree(a: Seq<u64>, b: Seq<u64>, n: int) -> bool {
    forall|k: int| 0 <= k < n ==> #[trigger] a[k] == #[trigger] b[k]
}

/// The order of positions: compare level by level; a proper prefix
/// comes first.
pub open spec fn position_lt(a: Seq<u64>, b: Seq<u64>) -> bool {
    ||| exists|i: int| 0 <= i < a.len() && i < b.len() && agree(a, b, i) && #[trigger] a[i] < #[trigger] b[i]
    ||| a.len() < b.len() && agree(a, b, a.len() as int)
}

/// The order of Uids: by position, then site id, then counter.
pub open spec fn uid_lt(a: &Uid, b: &Uid) -> bool {
    ||| position_lt(a.position@, b.position@)
    ||| (a.position@ == b.position@ && (a.site_id < b.site_id || (a.site_id == b.site_id && a.counter < b.counter)))
}

/// The same position, site id and counter.
pub open spec fn uid_same(a: &Uid, b: &Uid) -> bool {
    a.position@ == b.position@ && a.site_id == b.site_id && a.counter == b.counter
}

/// The left neighbour's value at level `i` (0 past its end).
pub open spec fn pos_left(a: Seq<u64>, i: int) -> nat {
    if i < a.len() { a[i] as nat } else { 0 }
}

/// The right neighbour's value at level `i` (the largest value of the
/// level past its end).
pub open spec fn pos_right(b: Seq<u64>, i: int) -> nat {
    if i < b.len() { b[i] as nat } else { (level_bound(i as nat) - 1) as nat }
}

/// Level `i` leaves room for a value strictly between the neighbours.
pub open spec fn room(a: Seq<u64>, b: Seq<u64>, i: int) -> bool {
    pos_left(a, i) + 1 < pos_right(b, i)
}

/// The first level at or after `i` that leaves room (`max_levels()`
/// when none does).
pub open spec fn first_room_from(a: Seq<u64>, b: Seq<u64>, i: int) -> int
    decreases max_levels() - i,
{
    if i >= max_levels() {
        max_levels() as int
    } else if room(a, b, i) {
        i
    } else {
        first_room_from(a, b, i + 1)
    }
}

/// The first level that leaves room.
pub open spec fn first_room(a: Seq<u64>, b: Seq<u64>) -> int {
    first_room_from(a, b, 0)
}

/// Some level the algorithm reaches leaves room, so `between` returns.
pub open spec fn has_room(a: Seq<u64>, b: Seq<u64>) -> bool {
    first_room(a, b) < max_levels()
}

/// `r` is a position that `between` may make for neighbours `a` and
/// `b`: the left neighbour's values up to the first level with room,
/// then a value above the left one there, below both the right one and
/// the left one plus `BOUNDARY`.
pub open spec fn between_position(a: Seq<u64>, b: Seq<u64>, r: Seq<u64>) -> bool {
    let g = first_room(a, b);
    &&& r.len() == g + 1
    &&& forall|k: int| 0 <= k < g ==> r[k] as nat == #[trigger] pos_left(a, k)
    &&& pos_left(a, g) + 1 <= r[g]
    &&& r[g] < pos_right(b, g)
    &&& r[g] < pos_left(a, g) + BOUNDARY
}

/// Calls rand's `Rng::gen_range` on the operating system's random number
/// generator. Claimed of it: the number lies in `[lo, hi)`; which one
/// comes is left open.
#[verifier::external_body]
pub(crate) fn random_in_range(lo: u64, hi: u64) -> (r: u64)
    requires
        lo < hi,
    ensures
        lo <= r < hi,
{
    rand::rngs::OsRng.gen_range(lo..hi)
}

/// A unique identifier of a sequence element.
#[derive(Debug, PartialEq, Eq, PartialOrd, Ord, Hash)]
pub struct Uid {
    pub position: Vec<u64>,
    pub site_id: u32,
    pub counter: u32,
}

impl Clone for Uid {
    fn clone(&self) -> (u: Self)
        ensures
            uid_same(&u, self),
    {
        let mut position: Vec<u64> = Vec::new();
        let mut i: usize = 0;
        while i < self.position.len()
            invariant
                i <= self.position.len(),
                position@ == self.position@.subrange(0, i as int),
            decreases self.position.len() - i,
        {
            position.push(self.position[i]);
            i = i + 1;
        }
        assert(position@ =~= self.position@);
        Uid { position: position, site_id: self.site_id, counter: self.counter }
    }
}

impl Uid {
    /// Constructs a Uid from its parts.
    pub fn new(position: Vec<u64>, site_id: u32, counter: u32) -> (u: Uid)
        ensures
            u.position@ == position@,
            u.site_id == site_id,
            u.counter == counter,
    {
        Uid { position: position, site_id: site_id, counter: counter }
    }

    /// The dot of the Uid: its site id and counter.
    pub fn dot(&self) -> (d: Dot)
        ensures
            d.site_id == self.site_id,
            d.counter == self.counter,
    {
        Dot { site_id: self.site_id, counter: self.counter }
    }

    /// Returns true iff the two Uids have the same position, site id and
    /// counter.
    pub fn same(&self, other: &Uid) -> (b: bool)
        ensures
            b == uid_same(self, other),
    {
        if self.site_id != other.site_id || self.counter != other.counter {
            return false;
        }
        if self.position.len() != other.position.len() {
            return false;
        }
        let mut i: usize = 0;
        while i < self.position.len()
            invariant
                i <= self.position.len(),
                self.position.len() == other.position.len(),
                agree(self.position@, other.position@, i as int),
            decreases self.position.len() - i,
        {
            if self.position[i] != other.position[i] {
                return false;
            }
            i = i + 1;
        }
        assert(self.position@ =~= other.position@);
        true
    }

    /// Returns true iff this Uid comes before `other`.
    pub fn precedes(&self, other: &Uid) -> (b: bool)
        ensures
            b == uid_lt(self, other),
    {
        let a = &self.position;
        let c = &other.position;
        let n = if a.len() < c.len() { a.len() } else { c.len() };
        let mut i: usize = 0;
        while i < n
            invariant
                i <= n,
                n <= a.len(),
                n <= c.len(),
                n == a.len() || n == c.len(),
                a@ == self.position@,
                c@ == other.position@,
                agree(a@, c@, i as int),
            decreases n - i,
        {
            if a[i] < c[i] {
                assert(a@[i as int] < c@[i as int]);
                assert(position_lt(a@, c@));
                return true;
            }
            if a[i] > c[i] {
                proof {
                    assert(c@[i as int] < a@[i as int]);
                    assert(agree(c@, a@, i as int));
                    assert(position_lt(c@, a@));
                    lemma_position_lt_trichotomy(a@, c@);
                    assert(a@ != c@);
                }
                return false;
            }
            i = i + 1;
        }
        proof {
            lemma_position_lt_trichotomy(a@, c@);
        }
        if a.len() < c.len() {
            return true;
        }
        if a.len() > c.len() {
            proof {
                assert(agree(c@, a@, c.len() as int));
            }
            return false;
        }
        assert(a@ =~= c@);
        self.site_id < other.site_id || (self.site_id == other.site_id && self.counter < other.counter)
    }

    /// Compares two Uids: by position, then site id, then counter.
    pub fn cmp(&self, other: &Uid) -> (o: std::cmp::Ordering)
        ensures
            (o == std::cmp::Ordering::Less) == uid_lt(self, other),
            (o == std::cmp::Ordering::Equal) == uid_same(self, other),
            (o == std::cmp::Ordering::Greater) == uid_lt(other, self),
    {
        proof {
            lemma_uid_order(self, other, other);
        }
        if self.precedes(other) {
            std::cmp::Ordering::Less
        } else if self.same(other) {
            std::cmp::Ordering::Equal
        } else {
            std::cmp::Ordering::Greater
        }
    }

    /// Makes a Uid between `uid1` and `uid2` carrying `dot`: at the first
    /// level where the neighbours leave room, a value just above the left
    /// neighbour's (chosen at random among the next `BOUNDARY - 1`, and
    /// below the right neighbour's); above that level, the left
    /// neighbour's values.
    pub fn between(uid1: &Uid, uid2: &Uid, dot: Dot) -> (u: Uid)
        requires
            valid_position(uid1.position@),
            has_room(uid1.position@, uid2.position@),
        ensures
            between_position(uid1.position@, uid2.position@, u.position@),
            u.site_id == dot.site_id,
            u.counter == dot.counter,
    {
        let ghost a = uid1.position@;
        let ghost b = uid2.position@;
        let mut position: Vec<u64> = Vec::new();
        let mut level_max: u64 = 0xf_ffff;
        let mut i: usize = 0;
        proof {
            lemma2_to64();
        }
        while i < 44
            invariant
                i <= 44,
                a == uid1.position@,
                b == uid2.position@,
                valid_position(a),
                level_max as nat == level_bound(i as nat) - 1,
                first_room(a, b) == first_room_from(a, b, i as int),
                first_room(a, b) < max_levels(),
                position@.len() == i,
                forall|k: int| 0 <= k < i ==> position@[k] as nat == #[trigger] pos_left(a, k),
            decreases 44 - i,
        {
            proof {
                lemma_level_bound_fits(i as nat);
            }
            let pos1 = if i < uid1.position.len() { uid1.position[i] } else { 0 };
            let pos2 = if i < uid2.position.len() { uid2.position[i] } else { level_max };
            if pos1 + 1 < pos2 {
                let pos = generate_pos(pos1, pos2, BASE_LEVEL + i);
                position.push(pos);
                return Uid { position: position, site_id: dot.site_id, counter: dot.counter };
            }
            position.push(pos1);
            proof {
                assert(!room(a, b, i as int));
                lemma_first_room_from_ge(a, b, i + 1);
                lemma_pow2_unfold(BASE_LEVEL as nat + i as nat + 1);
                lemma_level_bound_fits((i + 1) as nat);
            }
            level_max = level_max * 2 + 1;
            i = i + 1;
        }
        proof {
            assert(false);
        }
        Uid { position: position, site_id: dot.site_id, counter: dot.counter }
    }

    /// Returns true iff `between` can place a Uid after `uid1` and before
    /// `uid2`: `uid1`'s position is valid and some level leaves room.
    pub fn fits_between(uid1: &Uid, uid2: &Uid) -> (b: bool)
        ensures
            b == (valid_position(uid1.position@) && has_room(uid1.position@, uid2.position@)),
    {
        let ghost a = uid1.position@;
        let ghost b = uid2.position@;
        // every level of `uid1` within its width
        let mut bound: u64 = 0x10_0000;
        let mut i: usize = 0;
        proof {
            lemma2_to64();
        }
        while i < uid1.position.len()
            invariant
                a == uid1.position@,
                i <= a.len(),
                i < 44 ==> bound as nat == level_bound(i as nat),
                forall|k: int| 0 <= k < i ==> (#[trigger] a[k]) < level_bound(k as nat),
            decreases a.len() - i,
        {
            if i < 44 {
                proof {
                    lemma_level_bound_fits(i as nat);
                }
                if uid1.position[i] >= bound {
                    return false;
                }
                if i < 43 {
                    proof {
                        lemma_pow2_unfold(BASE_LEVEL as nat + i as nat + 1);
                        lemma_level_bound_fits((i + 1) as nat);
                    }
                    bound = bound * 2;
                }
            } else {
                proof {
                    lemma2_to64_rest();
                    if i > 44 {
                        lemma_pow2_strictly_increases(64, BASE_LEVEL as nat + i as nat);
                    }
                    assert(level_bound(i as nat) >= pow2(64));
                    assert(uid1.position@[i as int] < level_bound(i as nat));
                }
            }
            i = i + 1;
        }
        // some level leaves room
        let mut level_max: u64 = 0xf_ffff;
        let mut j: usize = 0;
        while j < 44
            invariant
                j <= 44,
                a == uid1.position@,
                b == uid2.position@,
                valid_position(a),
                j < 44 ==> level_max as nat == level_bound(j as nat) - 1,
                first_room(a, b) == first_room_from(a, b, j as int),
            decreases 44 - j,
        {
            proof {
                lemma_level_bound_fits(j as nat);
            }
            let pos1 = if j < uid1.position.len() { uid1.position[j] } else { 0 };
            let pos2 = if j < uid2.position.len() { uid2.position[j] } else { level_max };
            if pos1 + 1 < pos2 {
                return true;
            }
            if j < 43 {
                proof {
                    lemma_pow2_unfold(BASE_LEVEL as nat + j as nat + 1);
                    lemma_level_bound_fits((j + 1) as nat);
                }
                level_max = level_max * 2 + 1;
            }
            j = j + 1;
        }
        false
    }

    /// The least Uid: position `[0]`, site id 0, counter 0.
    pub fn min() -> (u: Uid)
        ensures
            u.position@ == seq![0u64],
            u.site_id == 0,
            u.counter == 0,
    {
        let mut position: Vec<u64> = Vec::new();
        position.push(0);
        Uid { position: position, site_id: 0, counter: 0 }
    }

    /// The greatest Uid: the first level full of ones, the largest site
    /// id and counter.
    pub fn max() -> (u: Uid)
        ensures
            u.position@ == seq![0xf_ffffu64],
            u.site_id == u32::MAX,
            u.counter == u32::MAX,
    {
        let mut position: Vec<u64> = Vec::new();
        position.push(0xf_ffff);
        Uid { position: position, site_id: u32::MAX, counter: u32::MAX }
    }
}

/// Every level the algorithm builds fits a machine word with room to
/// spare.
proof fn lemma_level_bound_fits(i: nat)
    requires
        i < max_levels(),
    ensures
        1 <= level_bound(i) <= 0x8000_0000_0000_0000,
        level_bound(0) == 0x10_0000,
{
    lemma2_to64();
    lemma2_to64_rest();
    assert(level_bound(i) == pow2(20 + i));
    assert(pow2(63) == 0x8000_0000_0000_0000);
    if 20 + i < 63 {
        lemma_pow2_strictly_increases(20 + i, 63);
        assert(pow2(20 + i) < pow2(63));
    } else {
        assert(20 + i == 63);
    }
    vstd::arithmetic::power2::lemma_pow2_pos(20 + i);
    assert(pow2(20 + i) >= 1);
}

proof fn lemma_first_room_from_ge(a: Seq<u64>, b: Seq<u64>, j: int)
    requires
        0 <= j <= max_levels(),
    ensures
        j <= first_room_from(a, b, j) <= max_levels(),
    decreases max_levels() - j,
{
    if j < max_levels() && !room(a, b, j) {
        lemma_first_room_from_ge(a, b, j + 1);
    }
}

/// The boundary+ strategy is used at every level.
fn use_boundary_plus_strategy(_level: usize) -> (b: bool)
    ensures
        b,
{
    true
}

/// Picks a value strictly between `pos1` and `pos2` at the given level.
/// Boundary+ picks in `[pos1 + 1, min(pos1 + BOUNDARY, pos2))`;
/// boundary- would pick in `[max(pos1 + 1, pos2 - BOUNDARY), pos2)`.
fn generate_pos(pos1: u64, pos2: u64, level: usize) -> (pos: u64)
    requires
        pos1 + 1 < pos2,
        pos1 < 0x8000_0000_0000_0000,
    ensures
        pos1 + 1 <= pos < pos2,
        pos < pos1 + BOUNDARY,
{
    if use_boundary_plus_strategy(level) {
        let lo = pos1 + 1;
        let hi = if pos1 + BOUNDARY < pos2 { pos1 + BOUNDARY } else { pos2 };
        random_in_range(lo, hi)
    } else if pos2 <= BOUNDARY {
        random_in_range(pos1 + 1, pos2)
    } else {
        let lo = if pos1 + 1 > pos2 - BOUNDARY { pos1 + 1 } else { pos2 - BOUNDARY };
        random_in_range(lo, pos2)
    }
}

proof fn lemma_first_room_props(a: Seq<u64>, b: Seq<u64>, j: int)
    requires
        0 <= j <= max_levels(),
    ensures
        j <= first_room_from(a, b, j) <= max_levels(),
        first_room_from(a, b, j) < max_levels() ==> room(a, b, first_room_from(a, b, j)),
        forall|k: int| j <= k < first_room_from(a, b, j) ==> !#[trigger] room(a, b, k),
    decreases max_levels() - j,
{
    if j < max_levels() && !room(a, b, j) {
        lemma_first_room_props(a, b, j + 1);
    }
}

proof fn lemma_first_nonzero(b: Seq<u64>, lo: int, hi: int, w: int)
    requires
        0 <= lo <= w < hi <= b.len(),
        b[w] != 0,
    ensures
        exists|k: int| lo <= k < hi && b[k] != 0 && (forall|k2: int| lo <= k2 < k ==> b[k2] == 0),
    decreases w - lo,
{
    if exists|k2: int| lo <= k2 < w && b[k2] != 0 {
        let k2 = choose|k2: int| lo <= k2 < w && b[k2] != 0;
        lemma_first_nonzero(b, lo, hi, k2);
    } else {
        assert(forall|k2: int| lo <= k2 < w ==> b[k2] == 0);
    }
}

/// A Uid made by `between` has a valid position whose last level is not
/// zero, and it comes after its left neighbour. It comes before its right
/// neighbour whenever the left neighbour's position comes first and
/// either the two positions have the same number of levels or the right
/// neighbour's last level is not zero (as for every Uid that `between` or
/// `max` makes).
pub proof fn lemma_between_is_between(a: Seq<u64>, b: Seq<u64>, r: Seq<u64>)
    requires
        has_room(a, b),
        between_position(a, b, r),
    ensures
        position_lt(a, r),
        r.len() > 0 && r.last() != 0,
        valid_position(a) && valid_position(b) ==> valid_position(r),
        position_lt(a, b) && (a.len() == b.len() || (b.len() > 0 && b.last() != 0)) ==> position_lt(r, b),
{
    let g = first_room(a, b);
    lemma_first_room_props(a, b, 0);
    // after the left neighbour
    if g < a.len() {
        assert(agree(a, r, g)) by {
            assert forall|k: int| 0 <= k < g implies #[trigger] a[k] == #[trigger] r[k] by {
                assert(r[k] as nat == pos_left(a, k));
            }
        }
        assert(a[g] < r[g]);
    } else {
        assert(agree(a, r, a.len() as int)) by {
            assert forall|k: int| 0 <= k < a.len() implies #[trigger] a[k] == #[trigger] r[k] by {
                assert(r[k] as nat == pos_left(a, k));
            }
        }
    }
    if valid_position(a) && valid_position(b) {
        assert forall|i: int| 0 <= i < r.len() implies (#[trigger] r[i]) < level_bound(i as nat) by {
            vstd::arithmetic::power2::lemma_pow2_pos(BASE_LEVEL as nat + i as nat);
            if i < g {
                assert(r[i] as nat == pos_left(a, i));
            } else {
                assert(r[i] < pos_right(b, g));
            }
        }
    }
    // before the right neighbour
    if position_lt(a, b) && (a.len() == b.len() || (b.len() > 0 && b.last() != 0)) {
        if exists|m: int| 0 <= m < a.len() && m < b.len() && agree(a, b, m) && #[trigger] a[m] < #[trigger] b[m] {
            let m = choose|m: int| 0 <= m < a.len() && m < b.len() && agree(a, b, m) && #[trigger] a[m] < #[trigger] b[m];
            if g < m {
                assert(a[g] == b[g]);
                assert(!room(a, b, g));
            }
            if g == m {
                assert(agree(r, b, m)) by {
                    assert forall|k: int| 0 <= k < m implies #[trigger] r[k] == #[trigger] b[k] by {
                        assert(r[k] as nat == pos_left(a, k));
                        assert(a[k] == b[k]);
                    }
                }
                assert(r[m] < b[m]);
            } else {
                assert(agree(r, b, m)) by {
                    assert forall|k: int| 0 <= k < m implies #[trigger] r[k] == #[trigger] b[k] by {
                        assert(r[k] as nat == pos_left(a, k));
                        assert(a[k] == b[k]);
                    }
                }
                assert(r[m] as nat == pos_left(a, m));
                assert(r[m] < b[m]);
            }
        } else {
            // the left neighbour is a proper prefix of the right one
            assert(a.len() < b.len() && agree(a, b, a.len() as int));
            let la = a.len() as int;
            if g < la {
                assert(a[g] == b[g]);
                assert(!room(a, b, g));
            }
            let hi = if g < b.len() { g } else { b.len() as int };
            if exists|k: int| la <= k < hi && b[k] != 0 {
                let w = choose|k: int| la <= k < hi && b[k] != 0;
                lemma_first_nonzero(b, la, hi, w);
                let k = choose|k: int| la <= k < hi && b[k] != 0 && (forall|k2: int| la <= k2 < k ==> b[k2] == 0);
                assert(agree(r, b, k)) by {
                    assert forall|j: int| 0 <= j < k implies #[trigger] r[j] == #[trigger] b[j] by {
                        assert(r[j] as nat == pos_left(a, j));
                        if j < la {
                            assert(a[j] == b[j]);
                        }
                    }
                }
                assert(r[k] as nat == pos_left(a, k));
                assert(r[k] < b[k]);
            } else if g < b.len() {
                assert(agree(r, b, g)) by {
                    assert forall|j: int| 0 <= j < g implies #[trigger] r[j] == #[trigger] b[j] by {
                        assert(r[j] as nat == pos_left(a, j));
                        if j < la {
                            assert(a[j] == b[j]);
                        }
                    }
                }
                assert(r[g] < b[g]);
            } else {
                let last = b.len() - 1;
                assert(b[last] != 0);
                assert(last >= la) by {
                    if last < la {
                        assert(a[last] == b[last]);
                    }
                }
                assert(la <= last < hi);
                assert(false);
            }
        }
    }
}

/// `between` places a position after `p` and before `q`, and `depth` more
/// positions, each after the one before it and before `q`, whatever
/// values it draws: both positions are valid, `p` comes first, `q` ends
/// in a level that is not zero, and the levels the algorithm reaches
/// stay within the levels a position can hold.
pub open spec fn placeable(p: Seq<u64>, q: Seq<u64>, depth: nat) -> bool {
    &&& valid_position(p)
    &&& valid_position(q)
    &&& position_lt(p, q)
    &&& q.len() > 0 && q.last() != 0
    &&& first_room(p, q) + depth < max_levels()
    &&& (depth == 0 || q.len() + depth <= max_levels())
}

/// Where a level leaves room, the first level with room is no later.
proof fn lemma_first_room_at_most(a: Seq<u64>, b: Seq<u64>, k: int)
    requires
        0 <= k < max_levels(),
        room(a, b, k),
    ensures
        first_room(a, b) <= k,
{
    lemma_first_room_props(a, b, 0);
}

/// A position that `between` makes for placeable neighbours comes after
/// the left one and before the right one, is valid, and leaves the right
/// one placeable after it, one step less deep.
pub proof fn lemma_placeable_step(p: Seq<u64>, q: Seq<u64>, r: Seq<u64>, depth: nat)
    requires
        placeable(p, q, depth),
        between_position(p, q, r),
    ensures
        position_lt(p, r),
        position_lt(r, q),
        valid_position(r),
        depth > 0 ==> placeable(r, q, (depth - 1) as nat),
{
    lemma_between_is_between(p, q, r);
    if depth > 0 {
        let g = first_room(p, q);
        let k = if g + 1 < q.len() { q.len() as int } else { g + 1 };
        assert(k < max_levels());
        lemma_level_bound_fits(k as nat);
        vstd::arithmetic::power2::lemma2_to64();
        if k > 0 {
            lemma_pow2_strictly_increases(BASE_LEVEL as nat, BASE_LEVEL as nat + k as nat);
        }
        assert(level_bound(k as nat) >= 0x10_0000);
        assert(pos_left(r, k) == 0);
        assert(pos_right(q, k) == level_bound(k as nat) - 1);
        assert(room(r, q, k));
        lemma_first_room_at_most(r, q, k);
    }
}

/// No position comes before itself.
pub proof fn lemma_position_lt_irreflexive(a: Seq<u64>)
    ensures
        !position_lt(a, a),
{
}

/// Of two different positions exactly one comes first.
pub proof fn lemma_position_lt_trichotomy(a: Seq<u64>, b: Seq<u64>)
    ensures
        a != b ==> (position_lt(a, b) || position_lt(b, a)),
        !(position_lt(a, b) && position_lt(b, a)),
{
    if a != b {
        if !position_lt(a, b) && !position_lt(b, a) {
            // find the first difference
            let n = if a.len() < b.len() { a.len() as int } else { b.len() as int };
            if agree(a, b, n) {
                if a.len() == b.len() {
                    assert(a =~= b);
                }
            } else {
                let i = choose|i: int| 0 <= i < n && a[i] != b[i];
                lemma_first_difference(a, b, i);
            }
        }
    }
    if position_lt(a, b) && position_lt(b, a) {
        lemma_position_lt_asymmetric(a, b);
    }
}

/// Where two positions differ below `n` there is a first difference.
proof fn lemma_first_difference(a: Seq<u64>, b: Seq<u64>, i: int)
    requires
        0 <= i < a.len(),
        i < b.len(),
        a[i] != b[i],
    ensures
        exists|j: int| 0 <= j <= i && agree(a, b, j) && a[j] != b[j],
    decreases i,
{
    if !agree(a, b, i) {
        let k = choose|k: int| 0 <= k < i && a[k] != b[k];
        lemma_first_difference(a, b, k);
    }
}

proof fn lemma_position_lt_asymmetric(a: Seq<u64>, b: Seq<u64>)
    requires
        position_lt(a, b),
    ensures
        !position_lt(b, a),
{
    if position_lt(b, a) {
        if exists|i: int| 0 <= i < a.len() && i < b.len() && agree(a, b, i) && #[trigger] a[i] < #[trigger] b[i] {
            let i = choose|i: int| 0 <= i < a.len() && i < b.len() && agree(a, b, i) && #[trigger] a[i] < #[trigger] b[i];
            if exists|j: int| 0 <= j < b.len() && j < a.len() && agree(b, a, j) && #[trigger] b[j] < #[trigger] a[j] {
                let j = choose|j: int| 0 <= j < b.len() && j < a.len() && agree(b, a, j) && #[trigger] b[j] < #[trigger] a[j];
                if i < j {
                    assert(b[i] == a[i]);
                } else if j < i {
                    assert(a[j] == b[j]);
                }
            } else {
                assert(b[i] == a[i]);
            }
        } else {
            if exists|j: int| 0 <= j < b.len() && j < a.len() && agree(b, a, j) && #[trigger] b[j] < #[trigger] a[j] {
                let j = choose|j: int| 0 <= j < b.len() && j < a.len() && agree(b, a, j) && #[trigger] b[j] < #[trigger] a[j];
                assert(a[j] == b[j]);
            }
        }
    }
}

proof fn lemma_agree_transitive(a: Seq<u64>, b: Seq<u64>, c: Seq<u64>, n: int, m: int, l: int)
    requires
        agree(a, b, n),
        agree(b, c, m),
        l <= n,
        l <= m,
    ensures
        agree(a, c, l),
{
    assert forall|k: int| 0 <= k < l implies #[trigger] a[k] == #[trigger] c[k] by {
        assert(a[k] == b[k]);
        assert(b[k] == c[k]);
    }
}

/// The order of positions is transitive.
pub proof fn lemma_position_lt_transitive(a: Seq<u64>, b: Seq<u64>, c: Seq<u64>)
    requires
        position_lt(a, b),
        position_lt(b, c),
    ensures
        position_lt(a, c),
{
    let ab = exists|i: int| 0 <= i < a.len() && i < b.len() && agree(a, b, i) && #[trigger] a[i] < #[trigger] b[i];
    let bc = exists|i: int| 0 <= i < b.len() && i < c.len() && agree(b, c, i) && #[trigger] b[i] < #[trigger] c[i];
    if ab {
        let i = choose|i: int| 0 <= i < a.len() && i < b.len() && agree(a, b, i) && #[trigger] a[i] < #[trigger] b[i];
        if bc {
            let j = choose|j: int| 0 <= j < b.len() && j < c.len() && agree(b, c, j) && #[trigger] b[j] < #[trigger] c[j];
            if i <= j {
                lemma_agree_transitive(a, b, c, i, j, i);
                assert(a[i] < c[i]);
            } else {
                lemma_agree_transitive(a, b, c, i, j, j);
                assert(a[j] == b[j]);
                assert(a[j] < c[j]);
            }
        } else {
            lemma_agree_transitive(a, b, c, i, b.len() as int, i);
            assert(c[i] == b[i]);
            assert(a[i] < c[i]);
        }
    } else {
        if bc {
            let j = choose|j: int| 0 <= j < b.len() && j < c.len() && agree(b, c, j) && #[trigger] b[j] < #[trigger] c[j];
            if j < a.len() {
                lemma_agree_transitive(a, b, c, a.len() as int, j, j);
                assert(a[j] == b[j]);
                assert(a[j] < c[j]);
            } else {
                lemma_agree_transitive(a, b, c, a.len() as int, j, a.len() as int);
            }
        } else {
            lemma_agree_transitive(a, b, c, a.len() as int, b.len() as int, a.len() as int);
        }
    }
}

/// No Uid comes before itself; of two Uids that differ exactly one
/// comes first; and the order is transitive.
pub proof fn lemma_uid_order(a: &Uid, b: &Uid, c: &Uid)
    ensures
        !uid_lt(a, a),
        !uid_same(a, b) ==> (uid_lt(a, b) || uid_lt(b, a)),
        !(uid_lt(a, b) && uid_lt(b, a)),
        uid_lt(a, b) && uid_lt(b, c) ==> uid_lt(a, c),
{
    lemma_position_lt_irreflexive(a.position@);
    lemma_position_lt_trichotomy(a.position@, b.position@);
    lemma_position_lt_trichotomy(b.position@, c.position@);
    lemma_position_lt_trichotomy(a.position@, c.position@);
    if uid_lt(a, b) && uid_lt(b, c) {
        if position_lt(a.position@, b.position@) && position_lt(b.position@, c.position@) {
            lemma_position_lt_transitive(a.position@, b.position@, c.position@);
        }
    }
}

} // verus!
