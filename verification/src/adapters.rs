//! Folding a policy's abstract ship count into the engine's atomic move: a **fraction bucket**
//! of the source's eligible ships.

use vstd::prelude::*;
use crate::observe::FractionBucket;

verus! {

/// The smallest bucket covering `want` ships out of `available`, given how many ships the
/// quarter, half and three-quarter buckets of `available` move.
pub open spec fn bucket_for_spec(want: u32, available: u32, quarter: u32, half: u32, three_quarter: u32) -> Option<FractionBucket> {
    if want == 0 || available == 0 {
        None
    } else if want >= available {
        Some(FractionBucket::All)
    } else if quarter >= want {
        Some(FractionBucket::Quarter)
    } else if half >= want {
        Some(FractionBucket::Half)
    } else if three_quarter >= want {
        Some(FractionBucket::ThreeQuarter)
    } else {
        Some(FractionBucket::All)
    }
}

/// Choose the **smallest** fraction bucket whose share of `available` covers `want` ships:
/// `quarter`, `half` and `three_quarter` are the ship counts those buckets move out of
/// `available` (the engine's rounding). `want == 0` or `available == 0` yields `None` (no
/// order); wanting at least everything yields `All`.
pub fn bucket_for(want: u32, available: u32, quarter: u32, half: u32, three_quarter: u32) -> (r: Option<FractionBucket>)
    ensures
        r == bucket_for_spec(want, available, quarter, half, three_quarter),
        r is Some <==> (want > 0 && available > 0),
{
    if want == 0 || available == 0 {
        return None;
    }
    if want >= available {
        return Some(FractionBucket::All);
    }
    if quarter >= want {
        Some(FractionBucket::Quarter)
    } else if half >= want {
        Some(FractionBucket::Half)
    } else if three_quarter >= want {
        Some(FractionBucket::ThreeQuarter)
    } else {
        Some(FractionBucket::All)
    }
}

} // verus!
