//! The accumulated cost vector of a partial route and the four scoring
//! profiles that scalarize it.
//!
//! Times are held in units of 1/600 minute ("time units"): with integer
//! walking distances, penalty indices and floor counts, every term of the
//! transfer-time formula is an exact integer in this unit.  Profile scores
//! are held in units of 1/12000 minute, 20 score units per time unit, which
//! makes every scoring formula exact as well.

use vstd::prelude::*;

verus! {

/// Time units per minute: one time unit is 1/600 minute (0.1 s).
pub const UNITS_PER_MINUTE: u64 = 600;

/// Score units per time unit: scores are in 1/12000 minute.
pub const SCORE_PER_UNIT: u64 = 20;

/// The crowding index never exceeds this cap.
pub const CROWDING_CAP: u64 = 100;

/// The crowding index a route starts with.
pub const INITIAL_CROWDING: u64 = 20;

/// Accumulated costs of a partial route.  Every component is monotonically
/// non-decreasing along any path extension.
#[derive(Clone, Copy, Debug)]
pub struct RouteCosts {
    /// Riding plus transfer time, in 1/600-minute units.
    pub time: u64,
    /// Number of transfer edges taken.
    pub transfers: u64,
    /// Number of edges taken.
    pub hops: u64,
    /// Total walking distance over all transfers, in meters.
    pub transfer_distance: u64,
    /// Crowding index, between 0 and `CROWDING_CAP`.
    pub crowding: u64,
}

impl RouteCosts {
    /// The cost vector of an empty route.
    pub fn initial() -> (r: RouteCosts)
        ensures
            r == RouteCosts::spec_initial(),
    {
        RouteCosts {
            time: 0,
            transfers: 0,
            hops: 0,
            transfer_distance: 0,
            crowding: INITIAL_CROWDING,
        }
    }

    pub open spec fn spec_initial() -> RouteCosts {
        RouteCosts {
            time: 0,
            transfers: 0,
            hops: 0,
            transfer_distance: 0,
            crowding: INITIAL_CROWDING,
        }
    }

    /// Component-wise order: `self` costs at most as much as `other` in
    /// every dimension.
    pub open spec fn le(self, other: RouteCosts) -> bool {
        &&& self.time <= other.time
        &&& self.transfers <= other.transfers
        &&& self.hops <= other.hops
        &&& self.transfer_distance <= other.transfer_distance
        &&& self.crowding <= other.crowding
    }
}

/// The four scoring profiles.
#[derive(Clone, Copy, Debug, PartialEq, Eq, Structural)]
pub enum Profile {
    Smart,
    Fastest,
    FewestTransfers,
    Comfort,
}

/// `smart` score in 1/12000-minute units:
/// `time*0.65 + transfers*6*0.15 + (distance/100*5 + penalty)*0.15
///  + (crowding/10)*0.05` minutes, where `penalty` is
/// `(distance - 150) * 1.5` minutes once the accumulated transfer distance
/// exceeds 150 m and 0 below that.
pub open spec fn spec_score_smart(c: RouteCosts) -> int {
    c.time * 13 + c.transfers * 10800 + c.transfer_distance * 90 + (
        if c.transfer_distance > 150 {
            (c.transfer_distance - 150) * 2700
        } else {
            0
        }
    ) + c.crowding * 60
}

/// `fastest` score in 1/12000-minute units: `time + transfers*3` minutes.
pub open spec fn spec_score_fastest(c: RouteCosts) -> int {
    c.time * 20 + c.transfers * 36000
}

/// `fewest_transfers` score in 1/12000-minute units:
/// `transfers*1000 + time` minutes.
pub open spec fn spec_score_fewest_transfers(c: RouteCosts) -> int {
    c.transfers * 12000000 + c.time * 20
}

/// `comfort` score in 1/12000-minute units:
/// `transfers*60 + distance*0.3 + time` minutes.
pub open spec fn spec_score_comfort(c: RouteCosts) -> int {
    c.transfers * 720000 + c.transfer_distance * 3600 + c.time * 20
}

/// The scalar score of a cost vector under a profile, in 1/12000-minute
/// units.
pub open spec fn spec_score(p: Profile, c: RouteCosts) -> int {
    match p {
        Profile::Smart => spec_score_smart(c),
        Profile::Fastest => spec_score_fastest(c),
        Profile::FewestTransfers => spec_score_fewest_transfers(c),
        Profile::Comfort => spec_score_comfort(c),
    }
}

/// Computes the scalar score of a cost vector under a profile.  Returns
/// `None` exactly when the score does not fit in a `u64`; such an entry is
/// excluded from the search frontier, the integer analogue of dropping a
/// non-finite score.
pub fn score(p: Profile, c: &RouteCosts) -> (r: Option<u64>)
    ensures
        spec_score(p, *c) <= u64::MAX ==> r == Some(spec_score(p, *c) as u64),
        spec_score(p, *c) > u64::MAX ==> r is None,
{
    match p {
        Profile::Smart => {
            let t = c.time.checked_mul(13)?;
            let tr = c.transfers.checked_mul(10800)?;
            let d = c.transfer_distance.checked_mul(90)?;
            let pen: u64 = if c.transfer_distance > 150 {
                (c.transfer_distance - 150).checked_mul(2700)?
            } else {
                0
            };
            let cr = c.crowding.checked_mul(60)?;
            let s = t.checked_add(tr)?;
            let s = s.checked_add(d)?;
            let s = s.checked_add(pen)?;
            s.checked_add(cr)
        },
        Profile::Fastest => {
            let t = c.time.checked_mul(20)?;
            let tr = c.transfers.checked_mul(36000)?;
            t.checked_add(tr)
        },
        Profile::FewestTransfers => {
            let tr = c.transfers.checked_mul(12000000)?;
            let t = c.time.checked_mul(20)?;
            tr.checked_add(t)
        },
        Profile::Comfort => {
            let tr = c.transfers.checked_mul(720000)?;
            let d = c.transfer_distance.checked_mul(3600)?;
            let t = c.time.checked_mul(20)?;
            let s = tr.checked_add(d)?;
            s.checked_add(t)
        },
    }
}

/// Every scoring profile is monotone in the cost vector: extending a route
/// can only raise its score.  This is what makes the best-first search sound
/// over non-negative weights.
pub proof fn lemma_score_monotone(p: Profile, a: RouteCosts, b: RouteCosts)
    requires
        a.le(b),
    ensures
        spec_score(p, a) <= spec_score(p, b),
{
}

} // verus!
