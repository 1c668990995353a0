use vstd::prelude::*;

// Write path of a collection of records split over segments: a segment stores
// records with per-record versions, the holder fans a mutation out to the
// segments that own each record, and the updater turns tagged mutations into
// such fan-outs, placing new records in one chosen segment.
pub mod payload;
pub mod segment;
pub mod holder;
pub mod updater;
pub mod laws;

verus! {

} // verus!
